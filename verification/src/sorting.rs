//! Ordering the samples: a merge sort on `Vec<u128>`.

use vstd::prelude::*;
use vstd::relations::{sorted_by, total_ordering};
use vstd::seq_lib::{lemma_multiset_commutative, lemma_sorted_unique, to_multiset_build};

verus! {

/// The sequence never decreases from one position to a later one.
pub open spec fn sorted(s: Seq<u128>) -> bool {
    forall|i: int, j: int| 0 <= i <= j < s.len() ==> s[i] <= s[j]
}

/// Two ascending sequences that hold the same samples, each equally often,
/// are the same sequence: the order in which samples arrive leaves no trace
/// in the sorted sample set.
pub proof fn lemma_sorted_is_unique(a: Seq<u128>, b: Seq<u128>)
    requires
        sorted(a),
        sorted(b),
        a.to_multiset() == b.to_multiset(),
    ensures
        a == b,
{
    let at_most = |x: u128, y: u128| x <= y;
    assert(sorted_by(a, at_most));
    assert(sorted_by(b, at_most));
    assert(total_ordering(at_most));
    lemma_sorted_unique(a, b, at_most);
}

/// Taking one more element of a sequence adds that element to the bag of
/// those taken so far.
proof fn lemma_take_one_more(s: Seq<u128>, k: int)
    requires
        0 <= k < s.len(),
    ensures
        s.take(k + 1) == s.take(k).push(s[k]),
        s.take(k + 1).to_multiset() == s.take(k).to_multiset().insert(s[k]),
{
    assert(s.take(k + 1) =~= s.take(k).push(s[k]));
    to_multiset_build(s.take(k), s[k]);
}

/// Merges two sorted vectors into one sorted vector that holds the elements
/// of both.
fn merge(left: &Vec<u128>, right: &Vec<u128>) -> (out: Vec<u128>)
    requires
        sorted(left@),
        sorted(right@),
        left.len() + right.len() <= usize::MAX,
    ensures
        sorted(out@),
        out@.to_multiset() == left@.to_multiset().add(right@.to_multiset()),
        out.len() == left.len() + right.len(),
{
    let mut out: Vec<u128> = Vec::new();
    let mut i: usize = 0;
    let mut j: usize = 0;
    proof {
        let nothing = Seq::<u128>::empty();
        assert(left@.take(0) =~= nothing);
        assert(right@.take(0) =~= nothing);
        assert(nothing + nothing =~= out@);
        lemma_multiset_commutative(nothing, nothing);
    }
    while i < left.len() || j < right.len()
        invariant
            i <= left.len(),
            j <= right.len(),
            left.len() + right.len() <= usize::MAX,
            sorted(left@),
            sorted(right@),
            sorted(out@),
            out.len() == i + j,
            out@.to_multiset() == left@.take(i as int).to_multiset().add(
                right@.take(j as int).to_multiset(),
            ),
            forall|k: int| 0 <= k < out.len() && i < left.len() ==> out[k] <= left[i as int],
            forall|k: int| 0 <= k < out.len() && j < right.len() ==> out[k] <= right[j as int],
        decreases left.len() - i + (right.len() - j),
    {
        let from_left = if i >= left.len() {
            false
        } else if j >= right.len() {
            true
        } else {
            left[i] <= right[j]
        };
        let ghost before = out@;
        if from_left {
            let x = left[i];
            out.push(x);
            proof {
                lemma_take_one_more(left@, i as int);
                to_multiset_build(before, x);
                assert(out@.to_multiset() =~= left@.take(i + 1).to_multiset().add(
                    right@.take(j as int).to_multiset(),
                ));
            }
            i += 1;
        } else {
            let x = right[j];
            out.push(x);
            proof {
                lemma_take_one_more(right@, j as int);
                to_multiset_build(before, x);
                assert(out@.to_multiset() =~= left@.take(i as int).to_multiset().add(
                    right@.take(j + 1).to_multiset(),
                ));
            }
            j += 1;
        }
    }
    proof {
        assert(left@.take(i as int) =~= left@);
        assert(right@.take(j as int) =~= right@);
    }
    out
}

/// Sorts the elements of `v` from position `lo` up to, not including, `hi`.
fn sort_range(v: &Vec<u128>, lo: usize, hi: usize) -> (out: Vec<u128>)
    requires
        lo <= hi <= v.len(),
    ensures
        sorted(out@),
        out@.to_multiset() == v@.subrange(lo as int, hi as int).to_multiset(),
        out.len() == hi - lo,
    decreases hi - lo,
{
    if hi - lo <= 1 {
        let mut out: Vec<u128> = Vec::new();
        if hi - lo == 1 {
            out.push(v[lo]);
        }
        proof {
            assert(out@ =~= v@.subrange(lo as int, hi as int));
        }
        out
    } else {
        let mid = lo + (hi - lo) / 2;
        let left = sort_range(v, lo, mid);
        let right = sort_range(v, mid, hi);
        let out = merge(&left, &right);
        proof {
            let a = v@.subrange(lo as int, mid as int);
            let b = v@.subrange(mid as int, hi as int);
            assert(a + b =~= v@.subrange(lo as int, hi as int));
            lemma_multiset_commutative(a, b);
        }
        out
    }
}

/// Sorts the samples in ascending order.
///
/// The result holds exactly the elements of `v`, each as often as `v` holds
/// it, and never decreases.
pub fn sort_ascending(v: &Vec<u128>) -> (out: Vec<u128>)
    ensures
        sorted(out@),
        out@.to_multiset() == v@.to_multiset(),
        out.len() == v.len(),
{
    let out = sort_range(v, 0, v.len());
    proof {
        assert(v@.subrange(0, v.len() as int) =~= v@);
    }
    out
}

} // verus!
