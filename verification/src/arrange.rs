//! Putting a parsed document in order: every array that is sorted gets its
//! items exchanged until they stand in order, and everything else stays.

use crate::engine::{exchange, outline_of, source_name, source_text};
use crate::sort::{after_swaps, sorting_swaps, swaps_fit};
use crate::tree::{
    all_bare, arranged, arranged_node, bare, child_items, exchanged_items, is_bare,
    is_sorted_array, items_at, kind_at, lemma_replaced_at, lemma_replaced_twice, lemma_step,
    lemma_swaps_of_bare, literals, literals_of, node_view, replaced, with_items, Items, ItemsView,
    Node, NodeView,
};
use vstd::prelude::*;

verus! {

/// What a container holds while it is put in order: the first `done` of its
/// values are in order within, and the others are as in the source.
pub open spec fn partly(items: ItemsView, done: int) -> ItemsView {
    ItemsView {
        nodes: Seq::new(
            items.nodes.len(),
            |i: int|
                if 0 <= i < done {
                    arranged_node(items.nodes[i])
                } else {
                    items.nodes[i]
                },
        ),
        closing: items.closing,
    }
}

fn longer(path: &Vec<usize>, step: usize) -> (further: Vec<usize>)
    ensures
        further@ == path@.push(step),
{
    let mut further: Vec<usize> = Vec::new();
    let mut at: usize = 0;
    while at < path.len()
        invariant
            at <= path@.len(),
            further@ == path@.take(at as int),
        decreases path@.len() - at,
    {
        further.push(path[at]);
        at = at + 1;
        assert(further@ =~= path@.take(at as int));
    }
    further.push(step);
    assert(path@.take(at as int) =~= path@);
    further
}

/// Puts in order what the container at the end of `path` holds, which is
/// `items` as the document stands, and everything below it.
pub(crate) fn arrange_items(
    document: &mut json5format::ParsedDocument,
    items: &Items,
    array: bool,
    path: &Vec<usize>,
)
    requires
        kind_at(outline_of(*old(document)), path@, true) == Some(array),
        items_at(outline_of(*old(document)), path@) == items@,
    ensures
        outline_of(*final(document)) == replaced(
            outline_of(*old(document)),
            path@,
            arranged(items@, array),
        ),
        source_text(*final(document)) == source_text(*old(document)),
        source_name(*final(document)) == source_name(*old(document)),
    decreases *items, 0nat,
{
    let ghost start = outline_of(*document);
    let ghost shape = items@;
    proof {
        lemma_replaced_at(start, path@, shape, true);
        lemma_stays(start, path@, true);
    }
    if array && is_sorted_array(items) {
        let keys = literals_of(items);
        let swaps = sorting_swaps(&keys);
        proof {
            assert forall|k: int| 0 <= k < shape.nodes.len() implies shape.nodes[k] == bare(
                literals(shape)[k],
            ) by {
                assert(is_bare(shape.nodes[k]));
            }
        }
        let mut made: usize = 0;
        while made < swaps.len()
            invariant
                made <= swaps@.len(),
                kind_at(start, path@, true) == Some(true),
                swaps_fit(swaps@, shape.nodes.len() as int),
                forall|k: int| 0 <= k < shape.nodes.len() ==> shape.nodes[k] == bare(
                    literals(shape)[k],
                ),
                outline_of(*document) == replaced(
                    start,
                    path@,
                    ItemsView {
                        nodes: after_swaps(shape.nodes, swaps@.take(made as int)),
                        closing: shape.closing,
                    },
                ),
                source_text(*document) == source_text(*old(document)),
                source_name(*document) == source_name(*old(document)),
            decreases swaps@.len() - made,
        {
            let ghost so_far = swaps@.take(made as int);
            let ghost held = ItemsView {
                nodes: after_swaps(shape.nodes, so_far),
                closing: shape.closing,
            };
            let ghost now = outline_of(*document);
            let (first, second) = swaps[made];
            proof {
                assert forall|k: int| 0 <= k < so_far.len() implies (#[trigger] so_far[k]).0
                    < so_far[k].1 < shape.nodes.len() by {
                    assert(so_far[k] == swaps@[k]);
                }
                lemma_swaps_of_bare(shape.nodes, literals(shape), so_far);
                lemma_replaced_at(start, path@, held, true);
                assert(swaps@[made as int].0 < swaps@[made as int].1 < shape.nodes.len());
                assert(all_bare(held));
            }
            exchange(document, path, first, second);
            proof {
                lemma_replaced_twice(
                    start,
                    path@,
                    held,
                    exchanged_items(held, first as int, second as int),
                    true,
                );
                assert(swaps@.take(made + 1).drop_last() =~= so_far);
                assert(swaps@.take(made + 1).last() == swaps@[made as int]);
            }
            made = made + 1;
        }
        proof {
            assert(swaps@.take(made as int) =~= swaps@);
            lemma_swaps_of_bare(shape.nodes, literals(shape), swaps@);
            assert(after_swaps(shape.nodes, swaps@) =~= arranged(shape, array).nodes);
        }
    } else {
        let count = items.nodes.len();
        let mut index: usize = 0;
        proof {
            assert(partly(shape, 0).nodes =~= shape.nodes);
        }
        while index < count
            invariant
                index <= count,
                count == items.nodes@.len(),
                shape == items@,
                shape.nodes.len() == count,
                kind_at(start, path@, true) == Some(array),
                outline_of(*document) == replaced(start, path@, partly(shape, index as int)),
                source_text(*document) == source_text(*old(document)),
                source_name(*document) == source_name(*old(document)),
            decreases count - index,
        {
            let ghost held = partly(shape, index as int);
            let ghost now = outline_of(*document);
            assert(shape.nodes[index as int] == node_view(items.nodes@[index as int]));
            proof {
                lemma_replaced_at(start, path@, held, true);
            }
            let ghost next = ItemsView {
                nodes: held.nodes.update(index as int, arranged_node(shape.nodes[index as int])),
                closing: held.closing,
            };
            proof {
                assert(partly(shape, index + 1).nodes =~= next.nodes);
                assert(partly(shape, index + 1) == next);
            }
            match &items.nodes[index] {
                Node::Primitive { .. } => {
                    proof {
                        assert(next.nodes =~= held.nodes);
                    }
                },
                Node::Array { items: below, .. } => {
                    let further = longer(path, index);
                    proof {
                        lemma_step(now, path@, index, arranged(below@, true), true);
                    }
                    arrange_items(document, below, true, &further);
                    proof {
                        assert(items_at(now, path@) == held);
                        assert(with_items(held.nodes[index as int], arranged(below@, true))
                            == arranged_node(shape.nodes[index as int]));
                        lemma_replaced_twice(
                            start,
                            path@,
                            held,
                            ItemsView {
                                nodes: held.nodes.update(
                                    index as int,
                                    with_items(held.nodes[index as int], arranged(below@, true)),
                                ),
                                closing: held.closing,
                            },
                            true,
                        );
                    }
                },
                Node::Object { items: below, .. } => {
                    let further = longer(path, index);
                    proof {
                        lemma_step(now, path@, index, arranged(below@, false), true);
                    }
                    arrange_items(document, below, false, &further);
                    proof {
                        assert(items_at(now, path@) == held);
                        assert(with_items(held.nodes[index as int], arranged(below@, false))
                            == arranged_node(shape.nodes[index as int]));
                        lemma_replaced_twice(
                            start,
                            path@,
                            held,
                            ItemsView {
                                nodes: held.nodes.update(
                                    index as int,
                                    with_items(held.nodes[index as int], arranged(below@, false)),
                                ),
                                closing: held.closing,
                            },
                            true,
                        );
                    }
                },
            }
            index = index + 1;
        }
        proof {
            assert(partly(shape, count as int).nodes =~= arranged(shape, array).nodes);
        }
    }
}

/// Replacing a container with what it holds changes nothing.
pub proof fn lemma_stays(shape: ItemsView, path: Seq<usize>, array: bool)
    requires
        kind_at(shape, path, array) is Some,
    ensures
        replaced(shape, path, items_at(shape, path)) == shape,
    decreases path.len(),
{
    if path.len() > 0 {
        let node = shape.nodes[path[0] as int];
        lemma_stays(child_items(node), path.drop_first(), node is Array);
        assert(replaced(shape, path, items_at(shape, path)).nodes =~= shape.nodes);
    }
}

} // verus!
