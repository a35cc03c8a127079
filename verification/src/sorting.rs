//! Sorting a vector stably by rank.
//!
//! A merge sort that moves its elements and never copies one.

use crate::ranking::{
    is_ranked, lemma_of_rank_absent, lemma_of_rank_concat, lemma_of_rank_push, lemma_stable_sort,
    lemma_stable_sort_of_ranked, lemma_stable_sort_of_sorted_parts, lemma_stable_sort_unique,
    of_rank, stable_sort, Ranked,
};
use vstd::prelude::*;

verus! {

/// `out` is what a merge of `a` and `b` has put out once it has taken the
/// first `i` elements of `a` and the first `j` elements of `b`: it is
/// ranked, it holds these elements rank by rank, those of `a` first, nothing
/// in it ranks above what is still to come, and no element of `b` was taken
/// that the next element of `a` should have gone before.
spec fn is_merged<T: Ranked>(out: Seq<T>, a: Seq<T>, b: Seq<T>, i: int, j: int) -> bool {
    &&& 0 <= i <= a.len()
    &&& 0 <= j <= b.len()
    &&& is_ranked(out)
    &&& forall|k: int| #[trigger]
        of_rank(out, k) == of_rank(a.subrange(0, i), k) + of_rank(b.subrange(0, j), k)
    &&& forall|t: int|
        0 <= t < out.len() && i < a.len() ==> (#[trigger] out[t]).rank() <= a[i].rank()
    &&& forall|t: int|
        0 <= t < out.len() && j < b.len() ==> (#[trigger] out[t]).rank() <= b[j].rank()
    &&& forall|t: int| 0 <= t < j && i < a.len() ==> (#[trigger] b[t]).rank() < a[i].rank()
}

/// A merge starts with nothing taken and nothing put out.
proof fn lemma_merge_starts<T: Ranked>(a: Seq<T>, b: Seq<T>)
    ensures
        is_merged(Seq::<T>::empty(), a, b, 0, 0),
{
    assert forall|k: int| #[trigger]
        of_rank(Seq::<T>::empty(), k) == of_rank(a.subrange(0, 0), k) + of_rank(
            b.subrange(0, 0),
            k,
        ) by {
        lemma_of_rank_absent(Seq::<T>::empty(), k);
        lemma_of_rank_absent(a.subrange(0, 0), k);
        lemma_of_rank_absent(b.subrange(0, 0), k);
    }
}

/// An element that ranks no lower than all of a ranked sequence can be appended to it.
proof fn lemma_push_keeps_ranked<T: Ranked>(s: Seq<T>, x: T)
    requires
        is_ranked(s),
        forall|t: int| 0 <= t < s.len() ==> (#[trigger] s[t]).rank() <= x.rank(),
    ensures
        is_ranked(s.push(x)),
{
    let after = s.push(x);
    assert forall|m: int, n: int| 0 <= m <= n < after.len() implies (#[trigger] after[m]).rank()
        <= (#[trigger] after[n]).rank() by {
        if n < s.len() {
            assert(after[m] == s[m] && after[n] == s[n]);
        } else if m < s.len() {
            assert(after[m] == s[m]);
        }
    }
}

/// The merge may take the next element of `a` where `b` is used up or its
/// next element ranks no lower.
proof fn lemma_merge_takes_left<T: Ranked>(out: Seq<T>, a: Seq<T>, b: Seq<T>, i: int, j: int)
    requires
        is_ranked(a),
        is_ranked(b),
        is_merged(out, a, b, i, j),
        i < a.len(),
        j < b.len() ==> a[i].rank() <= b[j].rank(),
    ensures
        is_merged(out.push(a[i]), a, b, i + 1, j),
{
    let x = a[i];
    let after = out.push(x);
    lemma_push_keeps_ranked(out, x);
    assert(a.subrange(0, i + 1) =~= a.subrange(0, i).push(x));
    assert forall|k: int| #[trigger]
        of_rank(after, k) == of_rank(a.subrange(0, i + 1), k) + of_rank(b.subrange(0, j), k) by {
        lemma_of_rank_push(out, x, k);
        lemma_of_rank_push(a.subrange(0, i), x, k);
        assert(of_rank(out, k) == of_rank(a.subrange(0, i), k) + of_rank(b.subrange(0, j), k));
        if x.rank() == k {
            // Every element of `b` taken so far ranks below `x`.
            lemma_of_rank_absent(b.subrange(0, j), k);
            assert((of_rank(a.subrange(0, i), k) + Seq::<T>::empty()).push(x) =~= of_rank(
                a.subrange(0, i),
                k,
            ).push(x) + Seq::<T>::empty());
        }
    }
    assert forall|t: int| 0 <= t < after.len() && i + 1 < a.len() implies (
    #[trigger] after[t]).rank() <= a[i + 1].rank() by {
        assert(a[i].rank() <= a[i + 1].rank());
        if t < out.len() {
            assert(after[t] == out[t]);
        }
    }
    assert forall|t: int| 0 <= t < after.len() && j < b.len() implies (#[trigger] after[t]).rank()
        <= b[j].rank() by {
        if t < out.len() {
            assert(after[t] == out[t]);
        }
    }
    assert forall|t: int| 0 <= t < j && i + 1 < a.len() implies (#[trigger] b[t]).rank() < a[i
        + 1].rank() by {
        assert(a[i].rank() <= a[i + 1].rank());
    }
}

/// The merge may take the next element of `b` where `a` is used up or its
/// next element ranks higher.
proof fn lemma_merge_takes_right<T: Ranked>(out: Seq<T>, a: Seq<T>, b: Seq<T>, i: int, j: int)
    requires
        is_ranked(a),
        is_ranked(b),
        is_merged(out, a, b, i, j),
        j < b.len(),
        i < a.len() ==> b[j].rank() < a[i].rank(),
    ensures
        is_merged(out.push(b[j]), a, b, i, j + 1),
{
    let y = b[j];
    let after = out.push(y);
    lemma_push_keeps_ranked(out, y);
    assert(b.subrange(0, j + 1) =~= b.subrange(0, j).push(y));
    assert forall|k: int| #[trigger]
        of_rank(after, k) == of_rank(a.subrange(0, i), k) + of_rank(b.subrange(0, j + 1), k) by {
        lemma_of_rank_push(out, y, k);
        lemma_of_rank_push(b.subrange(0, j), y, k);
        assert(of_rank(out, k) == of_rank(a.subrange(0, i), k) + of_rank(b.subrange(0, j), k));
        if y.rank() == k {
            assert((of_rank(a.subrange(0, i), k) + of_rank(b.subrange(0, j), k)).push(y)
                =~= of_rank(a.subrange(0, i), k) + of_rank(b.subrange(0, j), k).push(y));
        }
    }
    assert forall|t: int| 0 <= t < after.len() && i < a.len() implies (#[trigger] after[t]).rank()
        <= a[i].rank() by {
        if t < out.len() {
            assert(after[t] == out[t]);
        }
    }
    assert forall|t: int| 0 <= t < after.len() && j + 1 < b.len() implies (
    #[trigger] after[t]).rank() <= b[j + 1].rank() by {
        assert(b[j].rank() <= b[j + 1].rank());
        if t < out.len() {
            assert(after[t] == out[t]);
        }
    }
}

/// Once everything is taken, what the merge has put out is the stable sort
/// of `a` followed by `b`.
proof fn lemma_merge_ends<T: Ranked>(out: Seq<T>, a: Seq<T>, b: Seq<T>)
    requires
        is_merged(out, a, b, a.len() as int, b.len() as int),
    ensures
        out == stable_sort(a + b),
{
    assert(a.subrange(0, a.len() as int) =~= a);
    assert(b.subrange(0, b.len() as int) =~= b);
    assert forall|k: int|
        #![trigger of_rank(out, k)]
        #![trigger of_rank(a + b, k)]
        of_rank(out, k) == of_rank(a + b, k) by {
        lemma_of_rank_concat(a, b, k);
        assert(of_rank(out, k) == of_rank(a.subrange(0, a.len() as int), k) + of_rank(
            b.subrange(0, b.len() as int),
            k,
        ));
    }
    lemma_stable_sort_unique(out, a + b);
}

/// The elements of `v` in the opposite order.
pub fn reversed<T>(v: Vec<T>) -> (r: Vec<T>)
    ensures
        r@ == v@.reverse(),
{
    let ghost whole = v@;
    let mut rest = v;
    let mut r: Vec<T> = Vec::new();
    while rest.len() > 0
        invariant
            rest@.len() + r@.len() == whole.len(),
            rest@ == whole.subrange(0, rest@.len() as int),
            forall|i: int| 0 <= i < r@.len() ==> r@[i] == whole[whole.len() - 1 - i],
        decreases rest.len(),
    {
        let x = rest.pop().unwrap();
        r.push(x);
    }
    assert(r@ =~= whole.reverse());
    r
}

/// Merges two ranked vectors. Where an element of `a` and one of `b` have the
/// same rank, the one of `a` comes first.
pub fn merge_ranked<T: Ranked>(a: Vec<T>, b: Vec<T>) -> (out: Vec<T>)
    requires
        is_ranked(a@),
        is_ranked(b@),
    ensures
        out@ == stable_sort(a@ + b@),
{
    let ghost a0 = a@;
    let ghost b0 = b@;
    // Both inputs are turned round, so that the next element of each is the one to pop.
    let mut left = reversed(a);
    let mut right = reversed(b);
    let mut out: Vec<T> = Vec::new();
    let ghost mut i: int = 0;
    let ghost mut j: int = 0;
    proof {
        lemma_merge_starts(a0, b0);
    }
    while left.len() > 0 || right.len() > 0
        invariant
            is_ranked(a0),
            is_ranked(b0),
            is_merged(out@, a0, b0, i, j),
            left@.len() == a0.len() - i,
            right@.len() == b0.len() - j,
            forall|t: int| 0 <= t < left@.len() ==> left@[t] == a0[a0.len() - 1 - t],
            forall|t: int| 0 <= t < right@.len() ==> right@[t] == b0[b0.len() - 1 - t],
        decreases left.len() + right.len(),
    {
        let from_left = if right.len() == 0 {
            true
        } else if left.len() == 0 {
            false
        } else {
            left[left.len() - 1].rank_key() <= right[right.len() - 1].rank_key()
        };
        if from_left {
            proof {
                lemma_merge_takes_left(out@, a0, b0, i, j);
                i = i + 1;
            }
            let x = left.pop().unwrap();
            out.push(x);
        } else {
            proof {
                lemma_merge_takes_right(out@, a0, b0, i, j);
                j = j + 1;
            }
            let y = right.pop().unwrap();
            out.push(y);
        }
    }
    proof {
        lemma_merge_ends(out@, a0, b0);
    }
    out
}

/// The elements of `v` sorted by rank, elements of equal rank in the order
/// in which they stood.
pub fn sorted_by_rank<T: Ranked>(v: Vec<T>) -> (r: Vec<T>)
    ensures
        r@ == stable_sort(v@),
    decreases v@.len(),
{
    let n: usize = v.len();
    if n <= 1 {
        proof {
            lemma_stable_sort_of_ranked(v@);
        }
        return v;
    }
    let ghost whole = v@;
    let mut front = v;
    let back = front.split_off(n / 2);
    proof {
        assert(whole =~= front@ + back@);
        lemma_stable_sort_of_sorted_parts(front@, back@);
        lemma_stable_sort(front@);
        lemma_stable_sort(back@);
    }
    let front = sorted_by_rank(front);
    let back = sorted_by_rank(back);
    merge_ranked(front, back)
}

/// Sorts `v` by rank and leaves elements of equal rank in their order.
pub fn sort_by_rank<T: Ranked>(v: &mut Vec<T>)
    ensures
        final(v)@ == stable_sort(old(v)@),
{
    let mut taken: Vec<T> = Vec::new();
    core::mem::swap(v, &mut taken);
    let mut sorted = sorted_by_rank(taken);
    core::mem::swap(v, &mut sorted);
}

} // verus!
