//! The shape of a parsed document, as far as sorting depends on it: which
//! values are primitives, what their literals are, which are containers, and
//! where comments stand. And the arrangement of that shape in which every
//! array that sorting applies to is in order.

use crate::order::copy_range;
use crate::order::compare;
use crate::sort::{
    after_swaps, in_order, lemma_in_order_throughout, lemma_ordered, lemma_ordered_stays,
    ordered, swapped, swaps_fit,
};
use vstd::prelude::*;

verus! {

/// The comments that belong to one value.
#[derive(Debug, Clone, Copy, PartialEq, Eq, Structural)]
pub struct Notes {
    /// How many entries stand before the value: comments, and the breaks that
    /// part blocks of them.
    pub leading: usize,
    /// Whether a comment follows the value on its line.
    pub trailing: bool,
}

/// What a container holds.
#[derive(Debug, PartialEq, Eq)]
pub struct Items {
    /// The values, in the order of the source.
    pub nodes: Vec<Node>,
    /// How many comment entries stand after the last value, before the
    /// container closes.
    pub closing: usize,
}

/// One value of a document.
#[derive(Debug, PartialEq, Eq)]
pub enum Node {
    /// A string, a number, a boolean or `null`, with the bytes of its literal.
    Primitive { notes: Notes, literal: Vec<u8> },
    /// An array and its items.
    Array { notes: Notes, items: Items },
    /// An object and the values of its properties.
    Object { notes: Notes, items: Items },
}

/// What [`Items`] stand for in contracts.
pub struct ItemsView {
    pub nodes: Seq<NodeView>,
    pub closing: nat,
}

/// What a [`Node`] stands for in contracts.
pub enum NodeView {
    Primitive { notes: Notes, literal: Seq<u8> },
    Array { notes: Notes, items: ItemsView },
    Object { notes: Notes, items: ItemsView },
}

/// A primitive with the given literal that no comment belongs to.
pub open spec fn bare(literal: Seq<u8>) -> NodeView {
    NodeView::Primitive { notes: Notes { leading: 0, trailing: false }, literal }
}

/// The view of what a container holds.
pub open spec fn items_view(items: Items) -> ItemsView
    decreases items, 0nat,
{
    ItemsView {
        nodes: Seq::new(
            items.nodes@.len(),
            |i: int|
                if 0 <= i < items.nodes@.len() {
                    node_view(items.nodes@[i])
                } else {
                    bare(Seq::empty())
                },
        ),
        closing: items.closing as nat,
    }
}

/// The view of a value.
pub open spec fn node_view(node: Node) -> NodeView
    decreases node, 1nat,
{
    match node {
        Node::Primitive { notes, literal } => NodeView::Primitive { notes, literal: literal@ },
        Node::Array { notes, items } => NodeView::Array { notes, items: items_view(items) },
        Node::Object { notes, items } => NodeView::Object { notes, items: items_view(items) },
    }
}

impl View for Items {
    type V = ItemsView;

    open spec fn view(&self) -> ItemsView {
        items_view(*self)
    }
}

impl View for Node {
    type V = NodeView;

    open spec fn view(&self) -> NodeView {
        node_view(*self)
    }
}

/// Whether a value is a primitive that no comment belongs to.
pub open spec fn is_bare(node: NodeView) -> bool {
    node matches NodeView::Primitive { notes, .. } && notes.leading == 0 && !notes.trailing
}

/// The literal of a primitive.
pub open spec fn literal_of(node: NodeView) -> Seq<u8> {
    match node {
        NodeView::Primitive { literal, .. } => literal,
        _ => Seq::empty(),
    }
}

/// The literals of the items of a container, in their order.
pub open spec fn literals(items: ItemsView) -> Seq<Seq<u8>> {
    Seq::new(items.nodes.len(), |i: int| literal_of(items.nodes[i]))
}

/// Whether every item of a container is a bare primitive.
pub open spec fn all_bare(items: ItemsView) -> bool {
    forall|i: int| 0 <= i < items.nodes.len() ==> is_bare(#[trigger] items.nodes[i])
}

/// Whether an array is sorted: it holds primitives only, and no comment
/// stands among them or behind them.
pub open spec fn sorts(items: ItemsView) -> bool {
    items.closing == 0 && all_bare(items)
}

/// What a container holds once the document is put in order: an array that
/// is sorted holds its primitives in order, and every other container holds
/// its values in the order of the source, each of them put in order within.
pub open spec fn arranged(items: ItemsView, array: bool) -> ItemsView
    decreases items, 0nat,
{
    if array && sorts(items) {
        ItemsView {
            nodes: Seq::new(items.nodes.len(), |i: int| bare(ordered(literals(items))[i])),
            closing: items.closing,
        }
    } else {
        ItemsView {
            nodes: Seq::new(
                items.nodes.len(),
                |i: int|
                    if 0 <= i < items.nodes.len() {
                        arranged_node(items.nodes[i])
                    } else {
                        bare(Seq::empty())
                    },
            ),
            closing: items.closing,
        }
    }
}

/// A value put in order within.
pub open spec fn arranged_node(node: NodeView) -> NodeView
    decreases node, 1nat,
{
    match node {
        NodeView::Primitive { .. } => node,
        NodeView::Array { notes, items } => NodeView::Array { notes, items: arranged(items, true) },
        NodeView::Object { notes, items } => NodeView::Object {
            notes,
            items: arranged(items, false),
        },
    }
}

/// What a container holds, and nothing for a primitive.
pub open spec fn child_items(node: NodeView) -> ItemsView {
    match node {
        NodeView::Array { items, .. } => items,
        NodeView::Object { items, .. } => items,
        NodeView::Primitive { .. } => ItemsView { nodes: Seq::empty(), closing: 0 },
    }
}

/// A container with what it holds replaced; a primitive as it is.
pub open spec fn with_items(node: NodeView, items: ItemsView) -> NodeView {
    match node {
        NodeView::Array { notes, .. } => NodeView::Array { notes, items },
        NodeView::Object { notes, .. } => NodeView::Object { notes, items },
        NodeView::Primitive { .. } => node,
    }
}

/// Where a path leads: each step names a value of the container reached so
/// far, and goes into it. The result says whether the container at the end is
/// an array, given whether the one at the start is; there is none where a
/// step names no value or names a primitive.
pub open spec fn kind_at(shape: ItemsView, path: Seq<usize>, array: bool) -> Option<bool>
    decreases path.len(),
{
    if path.len() == 0 {
        Some(array)
    } else if path[0] < shape.nodes.len() {
        match shape.nodes[path[0] as int] {
            NodeView::Array { items, .. } => kind_at(items, path.drop_first(), true),
            NodeView::Object { items, .. } => kind_at(items, path.drop_first(), false),
            NodeView::Primitive { .. } => None,
        }
    } else {
        None
    }
}

/// Whether a path leads to an array.
pub open spec fn leads_to_array(shape: ItemsView, path: Seq<usize>, array: bool) -> bool {
    kind_at(shape, path, array) == Some(true)
}

/// What the container at the end of a path holds.
pub open spec fn items_at(shape: ItemsView, path: Seq<usize>) -> ItemsView
    decreases path.len(),
{
    if path.len() == 0 {
        shape
    } else {
        items_at(child_items(shape.nodes[path[0] as int]), path.drop_first())
    }
}

/// A shape in which the container at the end of a path holds something else.
pub open spec fn replaced(shape: ItemsView, path: Seq<usize>, held: ItemsView) -> ItemsView
    decreases path.len(),
{
    if path.len() == 0 {
        held
    } else {
        ItemsView {
            nodes: shape.nodes.update(
                path[0] as int,
                with_items(
                    shape.nodes[path[0] as int],
                    replaced(child_items(shape.nodes[path[0] as int]), path.drop_first(), held),
                ),
            ),
            closing: shape.closing,
        }
    }
}

/// What a container holds after two of its items were exchanged.
pub open spec fn exchanged_items(items: ItemsView, first: int, second: int) -> ItemsView {
    ItemsView { nodes: swapped(items.nodes, first, second), closing: items.closing }
}

/// A shape in which two items of the array at the end of a path are
/// exchanged.
pub open spec fn exchanged(shape: ItemsView, path: Seq<usize>, first: int, second: int) -> ItemsView {
    replaced(shape, path, exchanged_items(items_at(shape, path), first, second))
}

/// After a container was replaced, the path leads to what it was replaced
/// with, and to a container of the same kind.
pub proof fn lemma_replaced_at(shape: ItemsView, path: Seq<usize>, held: ItemsView, array: bool)
    requires
        kind_at(shape, path, array) is Some,
    ensures
        items_at(replaced(shape, path, held), path) == held,
        kind_at(replaced(shape, path, held), path, array) == kind_at(shape, path, array),
    decreases path.len(),
{
    if path.len() > 0 {
        let node = shape.nodes[path[0] as int];
        lemma_replaced_at(child_items(node), path.drop_first(), held, node is Array);
    }
}

/// Replacing a container twice is replacing it with the second.
pub proof fn lemma_replaced_twice(
    shape: ItemsView,
    path: Seq<usize>,
    first: ItemsView,
    second: ItemsView,
    array: bool,
)
    requires
        kind_at(shape, path, array) is Some,
    ensures
        replaced(replaced(shape, path, first), path, second) == replaced(shape, path, second),
    decreases path.len(),
{
    if path.len() > 0 {
        let node = shape.nodes[path[0] as int];
        lemma_replaced_twice(child_items(node), path.drop_first(), first, second, node is Array);
        assert(replaced(replaced(shape, path, first), path, second).nodes =~= replaced(
            shape,
            path,
            second,
        ).nodes);
    }
}

/// One step further: a path that goes on into a container of the one at its
/// end leads to what that container holds, and replacing there is replacing
/// the one container among those at the end of the path.
pub proof fn lemma_step(
    shape: ItemsView,
    path: Seq<usize>,
    step: usize,
    held: ItemsView,
    array: bool,
)
    requires
        kind_at(shape, path, array) is Some,
        step < items_at(shape, path).nodes.len(),
        !(items_at(shape, path).nodes[step as int] is Primitive),
    ensures
        kind_at(shape, path.push(step), array) == Some(
            items_at(shape, path).nodes[step as int] is Array,
        ),
        items_at(shape, path.push(step)) == child_items(items_at(shape, path).nodes[step as int]),
        replaced(shape, path.push(step), held) == replaced(
            shape,
            path,
            ItemsView {
                nodes: items_at(shape, path).nodes.update(
                    step as int,
                    with_items(items_at(shape, path).nodes[step as int], held),
                ),
                closing: items_at(shape, path).closing,
            },
        ),
    decreases path.len(),
{
    let longer = path.push(step);
    if path.len() == 0 {
        reveal_with_fuel(kind_at, 2);
        reveal_with_fuel(items_at, 2);
        reveal_with_fuel(replaced, 2);
        assert(longer.drop_first() =~= Seq::<usize>::empty());
        assert(longer[0] == step);
        assert(longer.len() == 1);
    } else {
        let node = shape.nodes[path[0] as int];
        assert(longer.drop_first() =~= path.drop_first().push(step));
        assert(longer[0] == path[0]);
        lemma_step(child_items(node), path.drop_first(), step, held, node is Array);
    }
}

/// Exchanges among bare primitives are exchanges among their literals.
pub proof fn lemma_swaps_of_bare(
    nodes: Seq<NodeView>,
    keys: Seq<Seq<u8>>,
    swaps: Seq<(usize, usize)>,
)
    requires
        nodes.len() == keys.len(),
        forall|k: int| 0 <= k < nodes.len() ==> nodes[k] == bare(keys[k]),
        swaps_fit(swaps, nodes.len() as int),
    ensures
        after_swaps(nodes, swaps).len() == nodes.len(),
        after_swaps(keys, swaps).len() == nodes.len(),
        forall|k: int|
            0 <= k < nodes.len() ==> after_swaps(nodes, swaps)[k] == bare(
                after_swaps(keys, swaps)[k],
            ),
    decreases swaps.len(),
{
    if swaps.len() > 0 {
        let fewer = swaps.drop_last();
        assert(swaps.last() == swaps[swaps.len() - 1]);
        assert forall|k: int| 0 <= k < fewer.len() implies (#[trigger] fewer[k]).0 < fewer[k].1
            < nodes.len() by {
            assert(fewer[k] == swaps[k]);
        }
        lemma_swaps_of_bare(nodes, keys, fewer);
    }
}

/// Decides [`sorts`].
pub fn is_sorted_array(items: &Items) -> (sorted: bool)
    ensures
        sorted == sorts(items@),
{
    if items.closing != 0 {
        return false;
    }
    let count = items.nodes.len();
    let mut index: usize = 0;
    while index < count
        invariant
            index <= count,
            count == items.nodes@.len(),
            items@.nodes.len() == count,
            forall|i: int| 0 <= i < index ==> is_bare(#[trigger] items@.nodes[i]),
        decreases count - index,
    {
        let placed = match &items.nodes[index] {
            Node::Primitive { notes, .. } => notes.leading == 0 && !notes.trailing,
            _ => false,
        };
        assert(items@.nodes[index as int] == node_view(items.nodes@[index as int]));
        if !placed {
            return false;
        }
        index = index + 1;
    }
    true
}

/// The literals of an array of primitives, copied out.
pub(crate) fn literals_of(items: &Items) -> (keys: Vec<Vec<u8>>)
    requires
        all_bare(items@),
    ensures
        crate::sort::key_views(keys@) == literals(items@),
{
    let count = items.nodes.len();
    let mut keys: Vec<Vec<u8>> = Vec::new();
    let mut index: usize = 0;
    while index < count
        invariant
            index <= count,
            count == items.nodes@.len(),
            items@.nodes.len() == count,
            all_bare(items@),
            keys@.len() == index,
            forall|i: int| 0 <= i < index ==> (#[trigger] keys@[i])@ == literal_of(items@.nodes[i]),
        decreases count - index,
    {
        assert(items@.nodes[index as int] == node_view(items.nodes@[index as int]));
        assert(is_bare(items@.nodes[index as int]));
        match &items.nodes[index] {
            Node::Primitive { literal, .. } => {
                keys.push(copy_range(literal, 0, literal.len()));
                assert(literal@.subrange(0, literal@.len() as int) =~= literal@);
            },
            _ => {
                assert(false);
            },
        }
        index = index + 1;
    }
    assert(crate::sort::key_views(keys@) =~= literals(items@));
    keys
}

/// The items of an array that is sorted come out as bare primitives whose
/// literals are those of the source, each as often as there, and none of them
/// comes after one that stands behind it.
pub proof fn lemma_sorted_array(items: ItemsView)
    requires
        sorts(items),
    ensures
        all_bare(arranged(items, true)),
        arranged(items, true).nodes.len() == items.nodes.len(),
        arranged(items, true).closing == items.closing,
        literals(arranged(items, true)) == ordered(literals(items)),
        in_order(literals(arranged(items, true))),
        literals(arranged(items, true)).to_multiset() == literals(items).to_multiset(),
        forall|i: int, j: int|
            0 <= i <= j < items.nodes.len() ==> compare(
                #[trigger] literals(arranged(items, true))[i],
                #[trigger] literals(arranged(items, true))[j],
            ) <= 0,
{
    lemma_ordered(literals(items));
    assert(literals(arranged(items, true)) =~= ordered(literals(items)));
    let sorted = literals(arranged(items, true));
    assert forall|i: int, j: int| 0 <= i <= j < items.nodes.len() implies compare(
        #[trigger] sorted[i],
        #[trigger] sorted[j],
    ) <= 0 by {
        lemma_in_order_throughout(sorted, i, j);
    }
}

/// An array of primitives with a comment among them or behind them comes out
/// as it stands in the source.
pub proof fn lemma_commented_primitives_stay(items: ItemsView)
    requires
        forall|i: int| 0 <= i < items.nodes.len() ==> #[trigger] items.nodes[i] is Primitive,
        items.closing > 0 || !all_bare(items),
    ensures
        arranged(items, true) == items,
{
    assert(arranged(items, true).nodes =~= items.nodes);
}

/// A document that is one such array comes out as it stands in the source.
pub proof fn lemma_commented_document_stays(shape: ItemsView, notes: Notes, items: ItemsView)
    requires
        shape.nodes == seq![NodeView::Array { notes, items }],
        forall|i: int| 0 <= i < items.nodes.len() ==> #[trigger] items.nodes[i] is Primitive,
        items.closing > 0 || !all_bare(items),
    ensures
        arranged(shape, true) == shape,
{
    lemma_commented_primitives_stay(items);
    assert(!is_bare(shape.nodes[0]));
    assert(arranged(shape, true).nodes =~= shape.nodes);
}

/// An array in which a comment stands among the items or behind them, or
/// which holds a container, keeps the order of its source: each item stays at
/// its place, and a primitive stays as it is.
pub proof fn lemma_other_array_stays(items: ItemsView, index: int)
    requires
        0 <= index < items.nodes.len(),
        items.closing > 0 || !all_bare(items),
    ensures
        arranged(items, true).nodes.len() == items.nodes.len(),
        arranged(items, true).nodes[index] == arranged_node(items.nodes[index]),
        items.nodes[index] is Primitive ==> arranged(items, true).nodes[index]
            == items.nodes[index],
{
}

/// The values of an object keep the order of the source.
pub proof fn lemma_object_stays(items: ItemsView, index: int)
    requires
        0 <= index < items.nodes.len(),
    ensures
        arranged(items, false).nodes[index] == arranged_node(items.nodes[index]),
{
}

/// Putting in order what is in order changes nothing: the arrangement of an
/// arrangement is that arrangement.
pub proof fn lemma_arranged_twice(items: ItemsView, array: bool)
    ensures
        arranged(arranged(items, array), array) == arranged(items, array),
    decreases items, 0nat,
{
    let once = arranged(items, array);
    if array && sorts(items) {
        lemma_ordered(literals(items));
        assert(literals(once) =~= ordered(literals(items)));
        lemma_ordered_stays(literals(once));
        assert(sorts(once));
        assert(arranged(once, array).nodes =~= once.nodes);
    } else {
        assert forall|i: int| 0 <= i < items.nodes.len() implies arranged_node(
            #[trigger] once.nodes[i],
        ) == once.nodes[i] && is_bare(once.nodes[i]) == is_bare(items.nodes[i]) by {
            lemma_arranged_node_twice(items.nodes[i]);
        }
        if array {
            if items.closing == 0 {
                let odd = choose|i: int| 0 <= i < items.nodes.len() && !is_bare(items.nodes[i]);
                assert(!is_bare(once.nodes[odd]));
            }
            assert(!sorts(once));
        }
        assert(arranged(once, array).nodes =~= once.nodes);
    }
}

/// The same for one value.
pub proof fn lemma_arranged_node_twice(node: NodeView)
    ensures
        arranged_node(arranged_node(node)) == arranged_node(node),
        is_bare(arranged_node(node)) == is_bare(node),
    decreases node, 1nat,
{
    match node {
        NodeView::Primitive { .. } => {},
        NodeView::Array { items, .. } => {
            lemma_arranged_twice(items, true);
        },
        NodeView::Object { items, .. } => {
            lemma_arranged_twice(items, false);
        },
    }
}

} // verus!
