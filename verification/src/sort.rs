//! Putting literals in order: the order itself, and the exchanges of
//! neighbours that lead to it.

use crate::order::{compare, compare_literals, lemma_compare_chain, lemma_compare_opposite};
use vstd::prelude::*;

verus! {

/// A sequence with the items at two places exchanged.
pub open spec fn swapped<T>(items: Seq<T>, first: int, second: int) -> Seq<T> {
    items.update(first, items[second]).update(second, items[first])
}

/// A sequence after a row of exchanges, made one after the other.
pub open spec fn after_swaps<T>(items: Seq<T>, swaps: Seq<(usize, usize)>) -> Seq<T>
    decreases swaps.len(),
{
    if swaps.len() == 0 {
        items
    } else {
        swapped(
            after_swaps(items, swaps.drop_last()),
            swaps.last().0 as int,
            swaps.last().1 as int,
        )
    }
}

/// Whether every exchange names two places of a sequence of `len` items, the
/// lower one first.
pub open spec fn swaps_fit(swaps: Seq<(usize, usize)>, len: int) -> bool {
    forall|k: int| 0 <= k < swaps.len() ==> (#[trigger] swaps[k]).0 < swaps[k].1 < len
}

/// Literals that are in order, with one more put in its place: behind the
/// last that does not come after it.
pub open spec fn inserted(sorted: Seq<Seq<u8>>, literal: Seq<u8>) -> Seq<Seq<u8>>
    decreases sorted.len(),
{
    if sorted.len() == 0 {
        seq![literal]
    } else if compare(sorted.last(), literal) <= 0 {
        sorted.push(literal)
    } else {
        inserted(sorted.drop_last(), literal).push(sorted.last())
    }
}

/// Literals put in order. Literals that compare as equal are the same, so
/// there is one order only.
pub open spec fn ordered(literals: Seq<Seq<u8>>) -> Seq<Seq<u8>>
    decreases literals.len(),
{
    if literals.len() == 0 {
        literals
    } else {
        inserted(ordered(literals.drop_last()), literals.last())
    }
}

/// The views of a sequence of literals.
pub open spec fn key_views(keys: Seq<Vec<u8>>) -> Seq<Seq<u8>> {
    Seq::new(keys.len(), |i: int| keys[i]@)
}

/// The literals that stand at the places which a sequence of indices names.
pub open spec fn picked(literals: Seq<Seq<u8>>, places: Seq<usize>) -> Seq<Seq<u8>> {
    Seq::new(places.len(), |k: int| literals[places[k] as int])
}

/// Putting a literal in its place makes the sequence longer by one.
pub proof fn lemma_inserted_len(sorted: Seq<Seq<u8>>, literal: Seq<u8>)
    ensures
        inserted(sorted, literal).len() == sorted.len() + 1,
    decreases sorted.len(),
{
    if sorted.len() > 0 && compare(sorted.last(), literal) > 0 {
        lemma_inserted_len(sorted.drop_last(), literal);
    }
}

/// Putting literals in order keeps their number.
pub proof fn lemma_ordered_len(literals: Seq<Seq<u8>>)
    ensures
        ordered(literals).len() == literals.len(),
    decreases literals.len(),
{
    if literals.len() > 0 {
        lemma_ordered_len(literals.drop_last());
        lemma_inserted_len(ordered(literals.drop_last()), literals.last());
    }
}

/// Whether no literal of a sequence comes after the one that follows it.
pub open spec fn in_order(literals: Seq<Seq<u8>>) -> bool {
    forall|k: int| 0 <= k < literals.len() - 1 ==> compare(#[trigger] literals[k], literals[k + 1]) <= 0
}

/// A literal put in its place among literals in order leaves them in order,
/// and adds itself to them and nothing else.
pub proof fn lemma_inserted(sorted: Seq<Seq<u8>>, literal: Seq<u8>)
    requires
        in_order(sorted),
    ensures
        in_order(inserted(sorted, literal)),
        inserted(sorted, literal).len() == sorted.len() + 1,
        inserted(sorted, literal).last() == literal || (sorted.len() > 0 && inserted(
            sorted,
            literal,
        ).last() == sorted.last()),
        inserted(sorted, literal).to_multiset() == sorted.to_multiset().insert(literal),
    decreases sorted.len(),
{
    broadcast use vstd::seq_lib::group_to_multiset_ensures;

    let result = inserted(sorted, literal);
    if sorted.len() == 0 {
        assert(result =~= Seq::<Seq<u8>>::empty().push(literal));
        assert(sorted =~= Seq::<Seq<u8>>::empty());
    } else if compare(sorted.last(), literal) <= 0 {
        assert forall|k: int| 0 <= k < result.len() - 1 implies compare(
            #[trigger] result[k],
            result[k + 1],
        ) <= 0 by {
            if k < sorted.len() - 1 {
                assert(result[k] == sorted[k]);
                assert(result[k + 1] == sorted[k + 1]);
            }
        }
    } else {
        let fewer = sorted.drop_last();
        assert forall|k: int| 0 <= k < fewer.len() - 1 implies compare(
            #[trigger] fewer[k],
            fewer[k + 1],
        ) <= 0 by {
            assert(fewer[k] == sorted[k]);
            assert(fewer[k + 1] == sorted[k + 1]);
        }
        lemma_inserted(fewer, literal);
        let inner = inserted(fewer, literal);
        lemma_compare_opposite(sorted.last(), literal);
        if fewer.len() > 0 {
            assert(fewer.last() == sorted[sorted.len() - 2]);
            assert(compare(sorted[sorted.len() - 2], sorted[sorted.len() - 1]) <= 0);
        }
        assert forall|k: int| 0 <= k < result.len() - 1 implies compare(
            #[trigger] result[k],
            result[k + 1],
        ) <= 0 by {
            if k < inner.len() - 1 {
                assert(result[k] == inner[k]);
                assert(result[k + 1] == inner[k + 1]);
            } else {
                assert(result[k] == inner.last());
                assert(result[k + 1] == sorted.last());
            }
        }
        assert(sorted =~= fewer.push(sorted.last()));
        assert(result.to_multiset() =~= sorted.to_multiset().insert(literal));
    }
}

/// Literals put in order are in order, and they are the same literals, each
/// as often as before.
pub proof fn lemma_ordered(literals: Seq<Seq<u8>>)
    ensures
        in_order(ordered(literals)),
        ordered(literals).len() == literals.len(),
        ordered(literals).to_multiset() == literals.to_multiset(),
    decreases literals.len(),
{
    broadcast use vstd::seq_lib::group_to_multiset_ensures;

    if literals.len() > 0 {
        lemma_ordered(literals.drop_last());
        lemma_inserted(ordered(literals.drop_last()), literals.last());
        assert(literals =~= literals.drop_last().push(literals.last()));
        assert(ordered(literals).to_multiset() =~= literals.to_multiset());
    }
}

/// In a sequence in order, no literal comes after any that stands behind it.
pub proof fn lemma_in_order_throughout(literals: Seq<Seq<u8>>, first: int, second: int)
    requires
        in_order(literals),
        0 <= first <= second < literals.len(),
    ensures
        compare(literals[first], literals[second]) <= 0,
    decreases second - first,
{
    if first == second {
        lemma_compare_opposite(literals[first], literals[second]);
    } else {
        lemma_in_order_throughout(literals, first, second - 1);
        assert(compare(literals[second - 1], literals[second - 1 + 1]) <= 0);
        lemma_compare_chain(literals[first], literals[second - 1], literals[second]);
    }
}

/// Literals that are in order stay as they are when they are put in order.
pub proof fn lemma_ordered_stays(literals: Seq<Seq<u8>>)
    requires
        in_order(literals),
    ensures
        ordered(literals) == literals,
    decreases literals.len(),
{
    if literals.len() > 0 {
        let fewer = literals.drop_last();
        assert forall|k: int| 0 <= k < fewer.len() - 1 implies compare(
            #[trigger] fewer[k],
            fewer[k + 1],
        ) <= 0 by {
            assert(fewer[k] == literals[k]);
            assert(fewer[k + 1] == literals[k + 1]);
        }
        lemma_ordered_stays(fewer);
        if fewer.len() > 0 {
            assert(fewer.last() == literals[literals.len() - 2]);
            assert(compare(literals[literals.len() - 2], literals[literals.len() - 2 + 1]) <= 0);
        }
        assert(inserted(fewer, literals.last()) =~= literals);
    } else {
        assert(ordered(literals) =~= literals);
    }
}

/// Finds the exchanges of neighbours that put `keys` in order.
pub fn sorting_swaps(keys: &Vec<Vec<u8>>) -> (swaps: Vec<(usize, usize)>)
    ensures
        swaps_fit(swaps@, keys@.len() as int),
        after_swaps(key_views(keys@), swaps@) == ordered(key_views(keys@)),
{
    let ghost views = key_views(keys@);
    let count = keys.len();
    let mut places: Vec<usize> = Vec::new();
    let mut filled: usize = 0;
    while filled < count
        invariant
            filled <= count,
            places@.len() == filled,
            forall|k: int| 0 <= k < filled ==> places@[k] == k,
        decreases count - filled,
    {
        places.push(filled);
        filled = filled + 1;
    }
    let mut swaps: Vec<(usize, usize)> = Vec::new();
    assert(picked(views, places@) =~= views);
    assert(views.take(0) =~= Seq::<Seq<u8>>::empty());
    let mut index: usize = 0;
    while index < count
        invariant
            index <= count,
            count == keys@.len(),
            views == key_views(keys@),
            places@.len() == count,
            forall|k: int| 0 <= k < count ==> places@[k] < count,
            forall|k: int| index <= k < count ==> places@[k] == k,
            swaps_fit(swaps@, count as int),
            picked(views, places@) == after_swaps(views, swaps@),
            picked(views, places@).take(index as int) == ordered(views.take(index as int)),
        decreases count - index,
    {
        let ghost sorted = ordered(views.take(index as int));
        let ghost literal = views[index as int];
        proof {
            lemma_ordered_len(views.take(index as int));
            assert(sorted.take(index as int) =~= sorted);
            assert(sorted.skip(index as int) =~= Seq::<Seq<u8>>::empty());
            assert(inserted(sorted, literal) =~= inserted(sorted.take(index as int), literal)
                + sorted.skip(index as int));
        }
        let mut at: usize = index;
        while at > 0 && compare_literals(&keys[places[at - 1]], &keys[index]) > 0
            invariant
                at <= index < count,
                count == keys@.len(),
                views == key_views(keys@),
                literal == views[index as int],
                sorted.len() == index,
                places@.len() == count,
                forall|k: int| 0 <= k < count ==> places@[k] < count,
                forall|k: int| index < k < count ==> places@[k] == k,
                swaps_fit(swaps@, count as int),
                picked(views, places@) == after_swaps(views, swaps@),
                picked(views, places@).take(at as int) == sorted.take(at as int),
                picked(views, places@)[at as int] == literal,
                forall|k: int| at < k <= index ==> picked(views, places@)[k] == sorted[k - 1],
                inserted(sorted, literal) == inserted(sorted.take(at as int), literal)
                    + sorted.skip(at as int),
            decreases at,
        {
            let ghost before = picked(views, places@);
            let ghost made = swaps@;
            let lower = places[at - 1];
            let upper = places[at];
            places.set(at - 1, upper);
            places.set(at, lower);
            swaps.push((at - 1, at));
            proof {
                let now = picked(views, places@);
                assert(now =~= swapped(before, at - 1, at as int));
                assert(swaps@.drop_last() =~= made);
                let shorter = sorted.take(at as int);
                assert(shorter.last() == sorted[at - 1]);
                assert(before[at - 1] == sorted[at - 1]) by {
                    assert(before.take(at as int)[at - 1] == sorted.take(at as int)[at - 1]);
                }
                assert(shorter.drop_last() =~= sorted.take(at - 1));
                assert(inserted(shorter, literal) == inserted(sorted.take(at - 1), literal).push(
                    sorted[at - 1],
                ));
                assert(inserted(sorted.take(at - 1), literal).push(sorted[at - 1]) + sorted.skip(
                    at as int,
                ) =~= inserted(sorted.take(at - 1), literal) + sorted.skip(at - 1));
                assert(now.take(at - 1) =~= sorted.take(at - 1)) by {
                    assert forall|k: int| 0 <= k < at - 1 implies now[k] == sorted[k] by {
                        assert(before.take(at as int)[k] == sorted.take(at as int)[k]);
                    }
                }
            }
            at = at - 1;
        }
        proof {
            let now = picked(views, places@);
            let shorter = sorted.take(at as int);
            if at > 0 {
                assert(now[at - 1] == sorted[at - 1]) by {
                    assert(now.take(at as int)[at - 1] == sorted.take(at as int)[at - 1]);
                }
                assert(shorter.last() == sorted[at - 1]);
            }
            assert(inserted(shorter, literal) =~= shorter.push(literal));
            assert(now.take(index + 1) =~= shorter.push(literal) + sorted.skip(at as int)) by {
                assert forall|k: int| 0 <= k < index + 1 implies now.take(index + 1)[k] == (
                shorter.push(literal) + sorted.skip(at as int))[k] by {
                    if k < at {
                        assert(now.take(at as int)[k] == sorted.take(at as int)[k]);
                    }
                }
            }
            assert(views.take(index + 1).drop_last() =~= views.take(index as int));
            assert(views.take(index + 1).last() == literal);
        }
        index = index + 1;
    }
    proof {
        assert(picked(views, places@).take(count as int) =~= picked(views, places@));
        assert(views.take(count as int) =~= views);
    }
    swaps
}

} // verus!
