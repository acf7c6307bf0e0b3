//! Ordering items by a score, highest first.

use vstd::prelude::*;

verus! {

/// `sorted` with `item` put behind the last entry whose score is at least
/// that of `item` (in front of everything, if there is no such entry).
pub open spec fn placed<T>(sorted: Seq<(T, i64)>, item: (T, i64)) -> Seq<(T, i64)>
    decreases sorted.len(),
{
    if sorted.len() == 0 || sorted.last().1 >= item.1 {
        sorted.push(item)
    } else {
        placed(sorted.drop_last(), item).push(sorted.last())
    }
}

/// The items in descending order of their scores; items with the same score
/// keep the order that they came in.
pub open spec fn ranked<T>(items: Seq<(T, i64)>) -> Seq<(T, i64)>
    decreases items.len(),
{
    if items.len() == 0 {
        Seq::empty()
    } else {
        placed(ranked(items.drop_last()), items.last())
    }
}

/// Whether the scores of `items` never rise from one entry to the next.
pub open spec fn descending<T>(items: Seq<(T, i64)>) -> bool {
    forall|i: int, j: int| 0 <= i <= j < items.len() ==> items[i].1 >= items[j].1
}

/// Placing an item behind the entries from `at` on that score less, where
/// the entry before `at` does not, is inserting it at `at`.
pub proof fn lemma_placed_at<T>(sorted: Seq<(T, i64)>, item: (T, i64), at: int)
    requires
        0 <= at <= sorted.len(),
        forall|j: int| at <= j < sorted.len() ==> sorted[j].1 < item.1,
        at > 0 ==> sorted[at - 1].1 >= item.1,
    ensures
        placed(sorted, item) == sorted.insert(at, item),
    decreases sorted.len() - at,
{
    if at == sorted.len() {
        assert(sorted.push(item) =~= sorted.insert(at, item));
    } else {
        lemma_placed_at(sorted.drop_last(), item, at);
        assert(sorted.drop_last().insert(at, item).push(sorted.last()) =~= sorted.insert(
            at,
            item,
        ));
    }
}

/// Placing an item keeps a descending sequence descending and adds one
/// entry, the item.
pub proof fn lemma_placed_descending<T>(sorted: Seq<(T, i64)>, item: (T, i64))
    requires
        descending(sorted),
    ensures
        descending(placed(sorted, item)),
        placed(sorted, item).len() == sorted.len() + 1,
        placed(sorted, item).to_multiset() == sorted.to_multiset().insert(item),
    decreases sorted.len(),
{
    broadcast use vstd::seq_lib::group_to_multiset_ensures;

    if sorted.len() == 0 || sorted.last().1 >= item.1 {
    } else {
        let rest = sorted.drop_last();
        lemma_placed_descending(rest, item);
        let inner = placed(rest, item);
        let out = inner.push(sorted.last());
        assert(sorted =~= rest.push(sorted.last()));
        assert forall|i: int, j: int| 0 <= i <= j < out.len() implies out[i].1 >= out[j].1 by {
            if j == out.len() - 1 && i < j {
                // every entry of `inner` is the item or an entry of `rest`
                assert(inner.to_multiset().count(inner[i]) > 0);
                if inner[i] != item {
                    assert(rest.to_multiset().count(inner[i]) > 0);
                    assert(rest.contains(inner[i]));
                    let k = choose|k: int| 0 <= k < rest.len() && rest[k] == inner[i];
                    assert(sorted[k].1 >= sorted[sorted.len() - 1].1);
                }
            }
        }
        assert(out.to_multiset() =~= sorted.to_multiset().insert(item));
    }
}

/// A ranking is in descending order and holds exactly the items ranked.
pub proof fn lemma_ranked<T>(items: Seq<(T, i64)>)
    ensures
        descending(ranked(items)),
        ranked(items).len() == items.len(),
        ranked(items).to_multiset() == items.to_multiset(),
    decreases items.len(),
{
    broadcast use vstd::seq_lib::group_to_multiset_ensures;

    if items.len() == 0 {
        assert(items =~= Seq::empty());
    } else {
        lemma_ranked(items.drop_last());
        lemma_placed_descending(ranked(items.drop_last()), items.last());
        assert(items =~= items.drop_last().push(items.last()));
    }
}

/// Sorts by score, highest first; items with the same score keep their
/// order.
pub fn rank<T: Copy>(items: &[(T, i64)]) -> (r: Vec<(T, i64)>)
    ensures
        r@ == ranked(items@),
        r@.len() == items@.len(),
        descending(r@),
        r@.to_multiset() == items@.to_multiset(),
{
    let mut out: Vec<(T, i64)> = Vec::new();
    let mut i: usize = 0;
    while i < items.len()
        invariant
            i <= items.len(),
            out@ == ranked(items@.take(i as int)),
            out@.len() == i,
        decreases items.len() - i,
    {
        let item: (T, i64) = items[i];
        let mut at: usize = out.len();
        while at > 0 && out[at - 1].1 < item.1
            invariant
                at <= out.len(),
                forall|j: int| at <= j < out@.len() ==> out@[j].1 < item.1,
            decreases at,
        {
            at -= 1;
        }
        proof {
            lemma_placed_at(out@, item, at as int);
            assert(items@.take(i + 1).drop_last() =~= items@.take(i as int));
        }
        out.insert(at, item);
        i += 1;
    }
    proof {
        assert(items@.take(items.len() as int) =~= items@);
        lemma_ranked(items@);
    }
    out
}

} // verus!
