//! Choosing `k` positions out of the first `n`.

use itertools::Itertools;
use vstd::prelude::*;

verus! {

/// Each of `tails` with `x` put in front.
pub open spec fn prepend_all(x: usize, tails: Seq<Seq<usize>>) -> Seq<Seq<usize>> {
    Seq::new(tails.len(), |i: int| seq![x] + tails[i])
}

/// Every way to choose `k` of the positions `lo..hi`, each as the ascending
/// list of the positions chosen, the lists in lexicographic order.
pub open spec fn combinations_of(lo: usize, hi: usize, k: nat) -> Seq<Seq<usize>>
    decreases hi - lo,
{
    if k == 0 {
        seq![Seq::<usize>::empty()]
    } else if lo >= hi {
        Seq::<Seq<usize>>::empty()
    } else {
        prepend_all(lo, combinations_of((lo + 1) as usize, hi, (k - 1) as nat)) + combinations_of(
            (lo + 1) as usize,
            hi,
            k,
        )
    }
}

/// Whether `c` lists positions of `lo..hi` in strictly ascending order.
pub open spec fn ascending_within(c: Seq<usize>, lo: usize, hi: usize) -> bool {
    &&& forall|i: int| 0 <= i < c.len() ==> lo <= #[trigger] c[i] < hi
    &&& forall|i: int, j: int| 0 <= i < j < c.len() ==> c[i] < c[j]
}

/// Every entry of `combinations_of` is a choice of `k` positions of
/// `lo..hi`.
pub proof fn lemma_combinations_sound(lo: usize, hi: usize, k: nat, i: int)
    requires
        0 <= i < combinations_of(lo, hi, k).len(),
    ensures
        combinations_of(lo, hi, k)[i].len() == k,
        ascending_within(combinations_of(lo, hi, k)[i], lo, hi),
    decreases hi - lo,
{
    if k == 0 {
    } else if lo >= hi {
    } else {
        let next = (lo + 1) as usize;
        let with = combinations_of(next, hi, (k - 1) as nat);
        let without = combinations_of(next, hi, k);
        if i < with.len() {
            lemma_combinations_sound(next, hi, (k - 1) as nat, i);
            let c = seq![lo] + with[i];
            assert(combinations_of(lo, hi, k)[i] == c);
            assert forall|a: int, b: int| 0 <= a < b < c.len() implies c[a] < c[b] by {
                assert(c[b] == with[i][b - 1]);
                if a > 0 {
                    assert(c[a] == with[i][a - 1]);
                }
            }
            assert forall|a: int| 0 <= a < c.len() implies lo <= #[trigger] c[a] < hi by {
                if a > 0 {
                    assert(c[a] == with[i][a - 1]);
                }
            }
        } else {
            lemma_combinations_sound(next, hi, k, i - with.len());
            assert(combinations_of(lo, hi, k)[i] == without[i - with.len()]);
        }
    }
}

/// Every choice of `k` positions of `lo..hi` is an entry of
/// `combinations_of`.
pub proof fn lemma_combinations_complete(lo: usize, hi: usize, k: nat, c: Seq<usize>) -> (i: int)
    requires
        c.len() == k,
        ascending_within(c, lo, hi),
    ensures
        0 <= i < combinations_of(lo, hi, k).len(),
        combinations_of(lo, hi, k)[i] == c,
    decreases hi - lo,
{
    if k == 0 {
        assert(c =~= Seq::<usize>::empty());
        0
    } else if lo >= hi {
        assert(lo <= c[0] < hi);
        0
    } else {
        let next = (lo + 1) as usize;
        let with = combinations_of(next, hi, (k - 1) as nat);
        if c[0] == lo {
            let tail = c.skip(1);
            assert forall|a: int| 0 <= a < tail.len() implies next <= #[trigger] tail[a] < hi by {
                assert(tail[a] == c[a + 1]);
                assert(c[0] < c[a + 1]);
            }
            let i = lemma_combinations_complete(next, hi, (k - 1) as nat, tail);
            assert(seq![lo] + tail =~= c);
            i
        } else {
            assert forall|a: int| 0 <= a < c.len() implies next <= #[trigger] c[a] < hi by {
                if a > 0 {
                    assert(c[0] < c[a]);
                }
            }
            let i = lemma_combinations_complete(next, hi, k, c);
            with.len() + i
        }
    }
}

/// The choices of `k` of the positions `0..n`, handed out one at a time.
///
/// Holds the iterator that `itertools::Itertools::combinations` makes of
/// the range `0..n`. Nothing is known of a value of this type but what
/// [`pending`] names.
#[verifier::external_body]
pub struct Choices {
    inner: itertools::Combinations<std::ops::Range<usize>>,
}

/// The choices that `choices` has yet to hand out, in order.
pub uninterp spec fn pending(choices: Choices) -> Seq<Seq<usize>>;

/// Starts the choices of `k` of the positions `0..n`.
///
/// Calls `itertools::Itertools::combinations` on the range `0..n`. The
/// contract states what that iterator is documented and written to yield:
/// every `k`-element choice once, each in ascending order, the choices in
/// lexicographic order; one empty choice for `k == 0`, and none at all
/// where `k > n`.
#[verifier::external_body]
pub(crate) fn choices_of(n: usize, k: usize) -> (r: Choices)
    ensures
        pending(r) == combinations_of(0, n, k as nat),
{
    Choices { inner: (0..n).combinations(k) }
}

/// Hands out the next choice, if one is left.
///
/// Calls `Iterator::next` on the iterator held. The contract states that
/// the choices come in the order of [`pending`], each once, and that
/// nothing comes after the last.
#[verifier::external_body]
pub(crate) fn next_choice(choices: &mut Choices) -> (r: Option<Vec<usize>>)
    ensures
        match r {
            Some(chosen) => pending(*old(choices)).len() > 0 && chosen@ == pending(
                *old(choices),
            )[0] && pending(*final(choices)) == pending(*old(choices)).skip(1),
            None => pending(*old(choices)).len() == 0 && pending(*final(choices)).len() == 0,
        },
{
    choices.inner.next()
}

} // verus!
