//! Stable arrangement of a sequence by an integer rank.
//!
//! A sequence is *ranked* when ranks never decrease from left to right. The
//! *stable sort* of a sequence is the ranked sequence that keeps, for every
//! rank, the elements of that rank in the order in which they stood. The
//! lemmas below show that there is exactly one such sequence and that
//! [`stable_sort`] is it.

use vstd::prelude::*;

verus! {

/// A value with an integer rank. In a ranked sequence smaller ranks stand first.
pub trait Ranked: Sized {
    /// The rank of this value.
    spec fn rank(&self) -> int;

    /// The rank as a machine integer.
    fn rank_key(&self) -> (key: i64)
        ensures
            key == self.rank(),
    ;
}

/// The predicate "has rank `k`".
pub open spec fn has_rank<T: Ranked>(k: int) -> spec_fn(T) -> bool {
    |x: T| x.rank() == k
}

/// The elements of `s` whose rank is `k`, in the order in which they stand in `s`.
pub open spec fn of_rank<T: Ranked>(s: Seq<T>, k: int) -> Seq<T> {
    s.filter(has_rank(k))
}

/// Ranks never decrease from left to right.
pub open spec fn is_ranked<T: Ranked>(s: Seq<T>) -> bool {
    forall|i: int, j: int|
        #![trigger s[i], s[j]]
        0 <= i <= j < s.len() ==> s[i].rank() <= s[j].rank()
}

/// `t` is ranked and holds, for every rank, the same elements in the same
/// order as `s`: it is `s` sorted by rank, with ties left in their order.
pub open spec fn is_stable_sort_of<T: Ranked>(t: Seq<T>, s: Seq<T>) -> bool {
    &&& is_ranked(t)
    &&& forall|k: int|
        #![trigger of_rank(t, k)]
        #![trigger of_rank(s, k)]
        of_rank(t, k) == of_rank(s, k)
}

/// The index behind the last element of `s` whose rank does not exceed `r`
/// (0 where there is none).
pub open spec fn slot_for<T: Ranked>(s: Seq<T>, r: int) -> int
    decreases s.len(),
{
    if s.len() == 0 || s.last().rank() <= r {
        s.len() as int
    } else {
        slot_for(s.drop_last(), r)
    }
}

/// `s` with `x` placed behind the last element whose rank does not exceed its own.
pub open spec fn insert_by_rank<T: Ranked>(s: Seq<T>, x: T) -> Seq<T> {
    s.insert(slot_for(s, x.rank()), x)
}

/// The elements of `s` arranged by rank, each placed behind those of equal
/// rank that stood before it.
pub open spec fn stable_sort<T: Ranked>(s: Seq<T>) -> Seq<T>
    decreases s.len(),
{
    if s.len() == 0 {
        s
    } else {
        insert_by_rank(stable_sort(s.drop_last()), s.last())
    }
}

/// Appending an element appends it to the elements of its own rank and
/// leaves those of every other rank alone.
pub proof fn lemma_of_rank_push<T: Ranked>(s: Seq<T>, x: T, k: int)
    ensures
        of_rank(s.push(x), k) == if x.rank() == k {
            of_rank(s, k).push(x)
        } else {
            of_rank(s, k)
        },
{
    reveal(Seq::filter);
    assert(s.push(x).drop_last() =~= s);
}

/// The elements of one rank in a concatenation are those of the left part
/// followed by those of the right part.
pub proof fn lemma_of_rank_concat<T: Ranked>(a: Seq<T>, b: Seq<T>, k: int)
    ensures
        of_rank(a + b, k) == of_rank(a, k) + of_rank(b, k),
{
    Seq::filter_distributes_over_add(a, b, has_rank(k));
}

/// A sequence in which no element has rank `k` has no elements of rank `k`.
pub proof fn lemma_of_rank_absent<T: Ranked>(s: Seq<T>, k: int)
    requires
        forall|i: int| 0 <= i < s.len() ==> (#[trigger] s[i]).rank() != k,
    ensures
        of_rank(s, k) == Seq::<T>::empty(),
    decreases s.len(),
{
    reveal(Seq::filter);
    if s.len() > 0 {
        let rest = s.drop_last();
        assert forall|i: int| 0 <= i < rest.len() implies (#[trigger] rest[i]).rank() != k by {
            assert(rest[i] == s[i]);
        }
        lemma_of_rank_absent(rest, k);
    } else {
        assert(of_rank(s, k) =~= Seq::<T>::empty());
    }
}

/// Where `slot_for` points: everything from there on has a rank above `r`,
/// and the element just before, if any, does not.
pub proof fn lemma_slot_for<T: Ranked>(s: Seq<T>, r: int)
    ensures
        0 <= slot_for(s, r) <= s.len(),
        forall|i: int| slot_for(s, r) <= i < s.len() ==> (#[trigger] s[i]).rank() > r,
        slot_for(s, r) > 0 ==> s[slot_for(s, r) - 1].rank() <= r,
    decreases s.len(),
{
    if !(s.len() == 0 || s.last().rank() <= r) {
        let rest = s.drop_last();
        lemma_slot_for(rest, r);
        assert forall|i: int| slot_for(s, r) <= i < s.len() implies (#[trigger] s[i]).rank()
            > r by {
            if i < rest.len() {
                assert(rest[i] == s[i]);
            }
        }
        if slot_for(s, r) > 0 {
            assert(rest[slot_for(s, r) - 1] == s[slot_for(s, r) - 1]);
        }
    }
}

/// Inserting by rank adds the element behind those of its own rank, leaves
/// every other rank alone, and keeps a ranked sequence ranked.
pub proof fn lemma_insert_by_rank<T: Ranked>(s: Seq<T>, x: T)
    ensures
        insert_by_rank(s, x).len() == s.len() + 1,
        insert_by_rank(s, x).to_multiset() == s.to_multiset().insert(x),
        is_ranked(s) ==> is_ranked(insert_by_rank(s, x)),
        forall|k: int| #[trigger]
            of_rank(insert_by_rank(s, x), k) == if x.rank() == k {
                of_rank(s, k).push(x)
            } else {
                of_rank(s, k)
            },
{
    let r = x.rank();
    let p = slot_for(s, r);
    let head = s.subrange(0, p);
    let tail = s.subrange(p, s.len() as int);
    let t = insert_by_rank(s, x);
    lemma_slot_for(s, r);
    assert(s =~= head + tail);
    assert(t == head.push(x) + tail);

    assert(t.to_multiset() == s.to_multiset().insert(x)) by {
        vstd::seq_lib::lemma_multiset_commutative(head.push(x), tail);
        vstd::seq_lib::lemma_multiset_commutative(head, tail);
        head.to_multiset_ensures();
        assert(head.to_multiset().insert(x).add(tail.to_multiset()) =~= head.to_multiset().add(
            tail.to_multiset(),
        ).insert(x));
    }

    if is_ranked(s) {
        assert forall|i: int, j: int| 0 <= i <= j < t.len() implies (#[trigger] t[i]).rank() <= (
        #[trigger] t[j]).rank() by {
            if j < p {
                assert(t[i] == s[i] && t[j] == s[j]);
            } else if j == p {
                if i < p {
                    assert(t[i] == s[i]);
                    assert(s[i].rank() <= s[p - 1].rank());
                }
            } else {
                assert(t[j] == s[j - 1]);
                if i < p {
                    assert(t[i] == s[i]);
                } else if i > p {
                    assert(t[i] == s[i - 1]);
                }
            }
        }
    }

    assert forall|k: int| #[trigger]
        of_rank(t, k) == if r == k {
            of_rank(s, k).push(x)
        } else {
            of_rank(s, k)
        } by {
        lemma_of_rank_concat(head.push(x), tail, k);
        lemma_of_rank_concat(head, tail, k);
        lemma_of_rank_push(head, x, k);
        if r == k {
            lemma_of_rank_absent(tail, k);
            assert(of_rank(head, k).push(x) + Seq::<T>::empty() =~= (of_rank(head, k)
                + Seq::<T>::empty()).push(x));
        }
    }
}

/// `stable_sort(s)` is the stable sort of `s`; it has the length and the
/// elements of `s`, each as often as `s` has it.
pub proof fn lemma_stable_sort<T: Ranked>(s: Seq<T>)
    ensures
        is_stable_sort_of(stable_sort(s), s),
        stable_sort(s).len() == s.len(),
        stable_sort(s).to_multiset() == s.to_multiset(),
    decreases s.len(),
{
    if s.len() > 0 {
        let rest = s.drop_last();
        let x = s.last();
        lemma_stable_sort(rest);
        lemma_insert_by_rank(stable_sort(rest), x);
        assert(s =~= rest.push(x));
        rest.to_multiset_ensures();
        assert forall|k: int| of_rank(stable_sort(s), k) == #[trigger] of_rank(s, k) by {
            lemma_of_rank_push(rest, x, k);
            assert(of_rank(stable_sort(rest), k) == of_rank(rest, k));
        }
    }
}

/// Sorting neither adds nor drops an element.
pub proof fn lemma_stable_sort_contains<T: Ranked>(s: Seq<T>, x: T)
    ensures
        stable_sort(s).contains(x) <==> s.contains(x),
{
    lemma_stable_sort(s);
    s.to_multiset_ensures();
    stable_sort(s).to_multiset_ensures();
    assert(stable_sort(s).to_multiset().count(x) == s.to_multiset().count(x));
}

/// Two ranked sequences that agree, rank by rank, on their elements and the
/// order of these are the same sequence.
pub proof fn lemma_ranked_sequences_agree<T: Ranked>(t: Seq<T>, u: Seq<T>)
    requires
        is_ranked(t),
        is_ranked(u),
        forall|k: int|
            #![trigger of_rank(t, k)]
            #![trigger of_rank(u, k)]
            of_rank(t, k) == of_rank(u, k),
    ensures
        t == u,
    decreases t.len(),
{
    if t.len() == 0 {
        if u.len() > 0 {
            let k = u.last().rank();
            lemma_of_rank_push(u.drop_last(), u.last(), k);
            assert(u =~= u.drop_last().push(u.last()));
            lemma_of_rank_absent(t, k);
            assert(of_rank(u, k).len() > 0);
            assert(of_rank(t, k) == of_rank(u, k));
        }
        assert(t =~= u);
    } else {
        let x = t.last();
        let k = x.rank();
        let t0 = t.drop_last();
        assert(t =~= t0.push(x));
        lemma_of_rank_push(t0, x, k);
        assert(of_rank(t, k) == of_rank(u, k));
        if u.len() == 0 {
            lemma_of_rank_absent(u, k);
        }
        let y = u.last();
        let m = y.rank();
        let u0 = u.drop_last();
        assert(u =~= u0.push(y));
        lemma_of_rank_push(u0, y, m);
        assert(of_rank(t, m) == of_rank(u, m));
        if m > k {
            assert forall|i: int| 0 <= i < t.len() implies (#[trigger] t[i]).rank() != m by {
                assert(t[i].rank() <= t[t.len() - 1].rank());
            }
            lemma_of_rank_absent(t, m);
        }
        if k > m {
            assert forall|i: int| 0 <= i < u.len() implies (#[trigger] u[i]).rank() != k by {
                assert(u[i].rank() <= u[u.len() - 1].rank());
            }
            lemma_of_rank_absent(u, k);
        }
        assert(k == m);
        lemma_of_rank_push(u0, y, k);
        assert(of_rank(t0, k).push(x) == of_rank(u0, k).push(y));
        assert(x == y) by {
            assert(of_rank(t0, k).push(x).last() == x);
            assert(of_rank(u0, k).push(y).last() == y);
        }
        assert forall|j: int|
            #![trigger of_rank(t0, j)]
            #![trigger of_rank(u0, j)]
            of_rank(t0, j) == of_rank(u0, j) by {
            lemma_of_rank_push(t0, x, j);
            lemma_of_rank_push(u0, y, j);
            assert(of_rank(t, j) == of_rank(u, j));
            if j == k {
                assert(of_rank(t0, k) =~= of_rank(t0, k).push(x).drop_last());
                assert(of_rank(u0, k) =~= of_rank(u0, k).push(y).drop_last());
            }
        }
        assert(is_ranked(t0)) by {
            assert forall|i: int, j: int| 0 <= i <= j < t0.len() implies (#[trigger] t0[i]).rank()
                <= (#[trigger] t0[j]).rank() by {
                assert(t0[i] == t[i] && t0[j] == t[j]);
            }
        }
        assert(is_ranked(u0)) by {
            assert forall|i: int, j: int| 0 <= i <= j < u0.len() implies (#[trigger] u0[i]).rank()
                <= (#[trigger] u0[j]).rank() by {
                assert(u0[i] == u[i] && u0[j] == u[j]);
            }
        }
        lemma_ranked_sequences_agree(t0, u0);
    }
}

/// There is one stable sort of a sequence, and `stable_sort` gives it.
pub proof fn lemma_stable_sort_unique<T: Ranked>(t: Seq<T>, s: Seq<T>)
    requires
        is_stable_sort_of(t, s),
    ensures
        t == stable_sort(s),
{
    lemma_stable_sort(s);
    assert forall|k: int|
        #![trigger of_rank(t, k)]
        #![trigger of_rank(stable_sort(s), k)]
        of_rank(t, k) == of_rank(stable_sort(s), k) by {
        assert(of_rank(t, k) == of_rank(s, k));
        assert(of_rank(stable_sort(s), k) == of_rank(s, k));
    }
    lemma_ranked_sequences_agree(t, stable_sort(s));
}

/// Sorting leaves a ranked sequence as it is.
pub proof fn lemma_stable_sort_of_ranked<T: Ranked>(s: Seq<T>)
    requires
        is_ranked(s),
    ensures
        stable_sort(s) == s,
{
    lemma_stable_sort_unique(s, s);
}

/// Sorting twice gives what sorting once gives.
pub proof fn lemma_stable_sort_idempotent<T: Ranked>(s: Seq<T>)
    ensures
        stable_sort(stable_sort(s)) == stable_sort(s),
{
    lemma_stable_sort(s);
    lemma_stable_sort_of_ranked(stable_sort(s));
}

/// Sorting two parts and then their concatenation gives what sorting the
/// whole gives: the parts can be sorted apart and merged.
pub proof fn lemma_stable_sort_of_sorted_parts<T: Ranked>(a: Seq<T>, b: Seq<T>)
    ensures
        stable_sort(stable_sort(a) + stable_sort(b)) == stable_sort(a + b),
{
    let merged = stable_sort(stable_sort(a) + stable_sort(b));
    lemma_stable_sort(a);
    lemma_stable_sort(b);
    lemma_stable_sort(stable_sort(a) + stable_sort(b));
    assert forall|k: int|
        #![trigger of_rank(merged, k)]
        #![trigger of_rank(a + b, k)]
        of_rank(merged, k) == of_rank(a + b, k) by {
        lemma_of_rank_concat(stable_sort(a), stable_sort(b), k);
        lemma_of_rank_concat(a, b, k);
        assert(of_rank(stable_sort(a), k) == of_rank(a, k));
        assert(of_rank(stable_sort(b), k) == of_rank(b, k));
        assert(of_rank(merged, k) == of_rank(stable_sort(a) + stable_sort(b), k));
    }
    lemma_stable_sort_unique(merged, a + b);
}

/// Leaving elements out of a ranked sequence leaves it ranked.
pub proof fn lemma_filter_keeps_ranked<T: Ranked>(s: Seq<T>, keep: spec_fn(T) -> bool)
    requires
        is_ranked(s),
    ensures
        is_ranked(s.filter(keep)),
    decreases s.len(),
{
    reveal(Seq::filter);
    if s.len() > 0 {
        let rest = s.drop_last();
        assert forall|i: int, j: int| 0 <= i <= j < rest.len() implies (#[trigger] rest[i]).rank()
            <= (#[trigger] rest[j]).rank() by {
            assert(rest[i] == s[i] && rest[j] == s[j]);
        }
        lemma_filter_keeps_ranked(rest, keep);
        let kept = rest.filter(keep);
        if keep(s.last()) {
            let t = s.filter(keep);
            assert(t == kept.push(s.last()));
            assert forall|i: int, j: int| 0 <= i <= j < t.len() implies (
            #[trigger] t[i]).rank() <= (#[trigger] t[j]).rank() by {
                if j < kept.len() {
                    assert(t[i] == kept[i] && t[j] == kept[j]);
                } else if i < kept.len() {
                    assert(t[i] == kept[i]);
                    rest.lemma_filter_contains_rev(keep, kept[i]);
                    let at = choose|at: int| 0 <= at < rest.len() && rest[at] == kept[i];
                    assert(s[at] == rest[at]);
                    assert(s[at].rank() <= s[s.len() - 1].rank());
                }
            }
        }
    }
}

/// Replacing an element by one of the same rank leaves a ranked sequence ranked.
pub proof fn lemma_update_keeps_ranked<T: Ranked>(s: Seq<T>, i: int, x: T)
    requires
        is_ranked(s),
        0 <= i < s.len(),
        x.rank() == s[i].rank(),
    ensures
        is_ranked(s.update(i, x)),
{
    let t = s.update(i, x);
    assert forall|a: int, b: int| 0 <= a <= b < t.len() implies (#[trigger] t[a]).rank() <= (
    #[trigger] t[b]).rank() by {
        assert(s[a].rank() <= s[b].rank());
    }
}

} // verus!
