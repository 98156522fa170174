//! The order of intervals by `(low, high)`, and sorting by it.

use vstd::prelude::*;
use vstd::seq_lib::lemma_multiset_commutative;
use crate::interval::{canonical, touches};

verus! {

/// `a` comes no later than `b` in the order by low bound, then high bound.
pub open spec fn precedes(a: (u128, u128), b: (u128, u128)) -> bool {
    a.0 < b.0 || (a.0 == b.0 && a.1 <= b.1)
}

/// `s` is in ascending order by `(low, high)`.
pub open spec fn ascending(s: Seq<(u128, u128)>) -> bool {
    forall|i: int, j: int| 0 <= i < j < s.len() ==> precedes(#[trigger] s[i], #[trigger] s[j])
}

/// A sequence that holds, counted, what a canonical sequence holds is
/// canonical too: being canonical does not depend on the order.
pub proof fn lemma_rearranged_canonical(s: Seq<(u128, u128)>, t: Seq<(u128, u128)>)
    requires
        canonical(s),
        t.to_multiset() == s.to_multiset(),
    ensures
        canonical(t),
{
    s.to_multiset_ensures();
    t.to_multiset_ensures();
    assert(s.no_duplicates()) by {
        assert forall|i: int, j: int| 0 <= i < s.len() && 0 <= j < s.len() && i != j implies s[i]
            != s[j] by {
            assert(!touches(s[i], s[j]));
        }
    }
    s.lemma_multiset_has_no_duplicates();
    t.lemma_multiset_has_no_duplicates_conv();
    assert forall|i: int| 0 <= i < t.len() implies (#[trigger] t[i]).0 <= t[i].1 by {
        assert(t.contains(t[i]));
        assert(s.to_multiset().count(t[i]) > 0);
        let a = choose|a: int| 0 <= a < s.len() && s[a] == t[i];
        assert(s[a].0 <= s[a].1);
    }
    assert forall|i: int, j: int| 0 <= i < t.len() && 0 <= j < t.len() && i != j implies !touches(
        #[trigger] t[i],
        #[trigger] t[j],
    ) by {
        assert(t.contains(t[i]) && t.contains(t[j]));
        assert(s.to_multiset().count(t[i]) > 0 && s.to_multiset().count(t[j]) > 0);
        let a = choose|a: int| 0 <= a < s.len() && s[a] == t[i];
        let b = choose|b: int| 0 <= b < s.len() && s[b] == t[j];
        assert(t[i] != t[j]);
        assert(!touches(s[a], s[b]));
    }
}

/// Whether `a` comes strictly before `b`.
fn is_before(a: (u128, u128), b: (u128, u128)) -> (yes: bool)
    ensures
        yes == !precedes(b, a),
{
    a.0 < b.0 || (a.0 == b.0 && a.1 < b.1)
}

/// Merges two ascending lists into one ascending list.
fn merge(left: &Vec<(u128, u128)>, right: &Vec<(u128, u128)>) -> (out: Vec<(u128, u128)>)
    requires
        ascending(left@),
        ascending(right@),
    ensures
        ascending(out@),
        out@.to_multiset() == left@.to_multiset().add(right@.to_multiset()),
{
    let n: usize = left.len();
    let m: usize = right.len();
    let mut out: Vec<(u128, u128)> = Vec::new();
    let mut i: usize = 0;
    let mut j: usize = 0;
    proof {
        assert(out@ =~= left@.take(0) + right@.take(0));
        lemma_multiset_commutative(left@.take(0), right@.take(0));
    }
    while i < n || j < m
        invariant
            n == left.len(),
            m == right.len(),
            i <= n,
            j <= m,
            ascending(left@),
            ascending(right@),
            ascending(out@),
            out@.to_multiset() == left@.take(i as int).to_multiset().add(
                right@.take(j as int).to_multiset(),
            ),
            forall|k: int| 0 <= k < out.len() && i < n ==> precedes(#[trigger] out@[k], left@[i as int]),
            forall|k: int| 0 <= k < out.len() && j < m ==> precedes(#[trigger] out@[k], right@[j as int]),
        decreases (n - i) + (m - j),
    {
        let ghost before = out@;
        let from_left: bool = if i == n {
            false
        } else if j == m {
            true
        } else {
            !is_before(right[j], left[i])
        };
        if from_left {
            let x: (u128, u128) = left[i];
            out.push(x);
            proof {
                before.to_multiset_ensures();
                left@.take(i as int).to_multiset_ensures();
                assert(left@.take(i + 1) =~= left@.take(i as int).push(x));
                assert(out@.to_multiset() =~= left@.take(i + 1).to_multiset().add(
                    right@.take(j as int).to_multiset(),
                ));
                assert forall|k: int| 0 <= k < out.len() && i + 1 < n implies precedes(
                    #[trigger] out@[k],
                    left@[i + 1],
                ) by {
                    assert(precedes(left@[i as int], left@[i + 1]));
                    if k < before.len() {
                        assert(out@[k] == before[k]);
                    }
                }
            }
            i += 1;
        } else {
            let x: (u128, u128) = right[j];
            out.push(x);
            proof {
                before.to_multiset_ensures();
                right@.take(j as int).to_multiset_ensures();
                assert(right@.take(j + 1) =~= right@.take(j as int).push(x));
                assert(out@.to_multiset() =~= left@.take(i as int).to_multiset().add(
                    right@.take(j + 1).to_multiset(),
                ));
                assert forall|k: int| 0 <= k < out.len() && j + 1 < m implies precedes(
                    #[trigger] out@[k],
                    right@[j + 1],
                ) by {
                    assert(precedes(right@[j as int], right@[j + 1]));
                    if k < before.len() {
                        assert(out@[k] == before[k]);
                    }
                }
            }
            j += 1;
        }
        assert forall|a: int, b: int| 0 <= a < b < out.len() implies precedes(
            #[trigger] out@[a],
            #[trigger] out@[b],
        ) by {
            assert(out@[a] == before[a]);
            if b < before.len() {
                assert(out@[b] == before[b]);
            }
        }
    }
    proof {
        assert(left@.take(n as int) =~= left@);
        assert(right@.take(m as int) =~= right@);
    }
    out
}

/// An ascending list of the entries of `list` from index `from` up to,
/// not including, index `to`.
fn sorted_range(list: &Vec<(u128, u128)>, from: usize, to: usize) -> (out: Vec<(u128, u128)>)
    requires
        from <= to <= list.len(),
    ensures
        ascending(out@),
        out@.to_multiset() == list@.subrange(from as int, to as int).to_multiset(),
    decreases to - from,
{
    if to - from <= 1 {
        let mut out: Vec<(u128, u128)> = Vec::new();
        if from < to {
            out.push(list[from]);
        }
        assert(out@ =~= list@.subrange(from as int, to as int));
        out
    } else {
        let mid: usize = from + (to - from) / 2;
        let left = sorted_range(list, from, mid);
        let right = sorted_range(list, mid, to);
        proof {
            let low = list@.subrange(from as int, mid as int);
            let high = list@.subrange(mid as int, to as int);
            assert(list@.subrange(from as int, to as int) =~= low + high);
            lemma_multiset_commutative(low, high);
        }
        merge(&left, &right)
    }
}

/// Sorts `list` into ascending order by `(low, high)`.
pub(crate) fn sort_pairs(list: &mut Vec<(u128, u128)>)
    ensures
        ascending(final(list)@),
        final(list)@.to_multiset() == old(list)@.to_multiset(),
{
    let sorted = sorted_range(list, 0, list.len());
    assert(list@.subrange(0, list@.len() as int) =~= list@);
    *list = sorted;
}

} // verus!
