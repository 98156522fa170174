//! `RangeList`: a set of `u128` values kept as merged closed intervals.

use vstd::prelude::*;
use crate::interval::{canonical, covers, holds, hull, touches};
use crate::insertion::{
    adjoins,
    grown,
    inserted,
    lemma_inserted_canonical,
    lemma_inserted_covers,
    next_adjoining,
};
use crate::ordering::{ascending, lemma_rearranged_canonical, sort_pairs};
use crate::union::{
    absorbed,
    apart,
    last_touching,
    lemma_last_touching,
    lemma_united_canonical,
    lemma_united_covers,
    span,
    united,
};

verus! {

/// A set of integers, stored as closed intervals `(low, high)` of which no
/// two overlap or are adjacent. The intervals stand in no particular order.
pub struct RangeList(Vec<(u128, u128)>);

impl View for RangeList {
    type V = Seq<(u128, u128)>;

    /// The stored intervals, in their stored order.
    closed spec fn view(&self) -> Seq<(u128, u128)> {
        self.0@
    }
}

/// `v` lies right below or right above `iv`; a bound at either end of the
/// domain has nothing beyond it.
fn is_adjoining(iv: (u128, u128), v: u128) -> (yes: bool)
    ensures
        yes == adjoins(iv, v),
{
    (iv.0 > 0 && v == iv.0 - 1) || (iv.1 < u128::MAX && v == iv.1 + 1)
}

/// `iv` stretched by one to take in an adjoining `v`.
fn grow(iv: (u128, u128), v: u128) -> (wider: (u128, u128))
    ensures
        wider == grown(iv, v),
{
    if iv.0 > 0 && v == iv.0 - 1 {
        (v, iv.1)
    } else if iv.1 < u128::MAX && v == iv.1 + 1 {
        (iv.0, v)
    } else {
        iv
    }
}

/// The smallest interval that holds both `a` and `b`.
fn join(a: (u128, u128), b: (u128, u128)) -> (both: (u128, u128))
    ensures
        both == hull(a, b),
{
    (if a.0 <= b.0 { a.0 } else { b.0 }, if a.1 >= b.1 { a.1 } else { b.1 })
}

/// The first index at or after `from` whose interval `v` adjoins, or the
/// length if there is none.
fn find_adjoining(list: &Vec<(u128, u128)>, v: u128, from: usize) -> (at: usize)
    requires
        from <= list.len(),
    ensures
        at == next_adjoining(list@, v, from as int),
        from <= at <= list.len(),
{
    let n: usize = list.len();
    let mut k: usize = from;
    while k < n
        invariant
            n == list.len(),
            from <= k <= n,
            next_adjoining(list@, v, from as int) == next_adjoining(list@, v, k as int),
        decreases n - k,
    {
        if is_adjoining(list[k], v) {
            return k;
        }
        k += 1;
    }
    n
}

/// The two intervals overlap, or one ends right before the other begins;
/// a bound at the end of the domain has nothing beyond it.
fn is_touching(a: (u128, u128), b: (u128, u128)) -> (yes: bool)
    ensures
        yes == touches(a, b),
{
    (b.1 == u128::MAX || a.0 <= b.1 + 1) && (a.1 == u128::MAX || b.0 <= a.1 + 1)
}

/// Takes the interval `o` into `list`: merges it with every interval it
/// touches, or appends it if it touches none.
fn absorb(list: Vec<(u128, u128)>, o: (u128, u128)) -> (out: Vec<(u128, u128)>)
    ensures
        out@ == absorbed(list@, o),
{
    let n: usize = list.len();
    let mut merged: (u128, u128) = o;
    let mut found: bool = false;
    let mut last: usize = 0;
    let mut i: usize = 0;
    while i < n
        invariant
            n == list.len(),
            i <= n,
            merged == span(list@.take(i as int), o),
            found <==> last_touching(list@.take(i as int), o) >= 0,
            found ==> last == last_touching(list@.take(i as int), o),
        decreases n - i,
    {
        assert(list@.take(i + 1).drop_last() =~= list@.take(i as int));
        if is_touching(list[i], o) {
            merged = join(merged, list[i]);
            found = true;
            last = i;
        }
        i += 1;
    }
    assert(list@.take(n as int) =~= list@);
    if !found {
        let mut out: Vec<(u128, u128)> = list;
        out.push(o);
        return out;
    }
    proof {
        lemma_last_touching(list@, o);
    }
    let mut out: Vec<(u128, u128)> = Vec::new();
    i = 0;
    while i < last
        invariant
            n == list.len(),
            i <= last < n,
            out@ == apart(list@.take(i as int), o),
        decreases last - i,
    {
        assert(list@.take(i + 1).drop_last() =~= list@.take(i as int));
        if !is_touching(list[i], o) {
            out.push(list[i]);
        }
        i += 1;
    }
    out.push(merged);
    i = last + 1;
    while i < n
        invariant
            n == list.len(),
            last < i <= n,
            out@ == apart(list@.take(last as int), o).push(merged) + list@.subrange(last + 1, i as int),
        decreases n - i,
    {
        out.push(list[i]);
        i += 1;
    }
    assert(list@.subrange(last + 1, n as int) =~= list@.skip(last + 1));
    out
}

impl RangeList {
    #[verifier::type_invariant]
    spec fn merged(&self) -> bool {
        canonical(self.0@)
    }

    /// The empty set.
    pub fn new() -> (list: Self)
        ensures
            list@ == Seq::<(u128, u128)>::empty(),
    {
        RangeList(Vec::new())
    }

    /// Inserts `index`, merging it into the intervals it adjoins. Returns
    /// whether `index` was in the set already; then nothing changes.
    pub fn add(&mut self, index: u128) -> (known: bool)
        ensures
            known == covers(old(self)@, index),
            known ==> final(self)@ == old(self)@,
            final(self)@ == inserted(old(self)@, index),
            forall|x: u128| #[trigger] covers(final(self)@, x) <==> covers(old(self)@, x) || x == index,
            canonical(final(self)@),
    {
        proof {
            use_type_invariant(&*self);
            lemma_inserted_canonical(self@, index);
            assert forall|x: u128| covers(inserted(self@, index), x) <==> covers(self@, x) || x
                == index by {
                lemma_inserted_covers(self@, index, x);
            }
        }
        if self.in_range(index) {
            return true;
        }
        let mut list: Vec<(u128, u128)> = Vec::new();
        std::mem::swap(&mut list, &mut self.0);
        let n: usize = list.len();
        let first: usize = find_adjoining(&list, index, 0);
        if first == n {
            list.push((index, index));
        } else {
            let low: (u128, u128) = grow(list[first], index);
            let second: usize = find_adjoining(&list, index, first + 1);
            if second == n {
                list.set(first, low);
            } else {
                let high: (u128, u128) = grow(list[second], index);
                list.set(first, join(low, high));
                list.remove(second);
            }
        }
        self.0 = list;
        false
    }

    /// Whether `index` is in the set: whether some interval holds it.
    pub fn in_range(&self, index: u128) -> (found: bool)
        ensures
            found == covers(self@, index),
    {
        let n: usize = self.0.len();
        let mut i: usize = 0;
        while i < n
            invariant
                n == self.0.len(),
                i <= n,
                forall|k: int| 0 <= k < i ==> !holds(#[trigger] self.0@[k], index),
            decreases n - i,
        {
            let iv: (u128, u128) = self.0[i];
            if index >= iv.0 && index <= iv.1 {
                return true;
            }
            i += 1;
        }
        false
    }

    /// Takes in every interval of `other`, one at a time and in their
    /// order: each is merged with all the intervals it touches, or appended
    /// if it touches none.
    pub fn extend(&mut self, other: &RangeList)
        ensures
            final(self)@ == united(old(self)@, other@),
            forall|x: u128| #[trigger]
                covers(final(self)@, x) <==> covers(old(self)@, x) || covers(other@, x),
            canonical(final(self)@),
    {
        proof {
            use_type_invariant(&*self);
            use_type_invariant(other);
        }
        let ghost before = self@;
        let mut list: Vec<(u128, u128)> = Vec::new();
        std::mem::swap(&mut list, &mut self.0);
        let n: usize = other.0.len();
        let mut i: usize = 0;
        while i < n
            invariant
                n == other.0.len(),
                i <= n,
                list@ == united(before, other.0@.take(i as int)),
            decreases n - i,
        {
            assert(other.0@.take(i + 1).drop_last() =~= other.0@.take(i as int));
            list = absorb(list, other.0[i]);
            i += 1;
        }
        proof {
            assert(other.0@.take(n as int) =~= other.0@);
            lemma_united_canonical(before, other@);
        }
        self.0 = list;
        assert forall|x: u128| #[trigger]
            covers(self@, x) <==> covers(old(self)@, x) || covers(other@, x) by {
            lemma_united_covers(old(self)@, other@, x);
        }
    }

    /// Puts the intervals in ascending order by `(low, high)`. The set
    /// stays the same.
    pub fn sort(&mut self)
        ensures
            ascending(final(self)@),
            final(self)@.to_multiset() == old(self)@.to_multiset(),
            canonical(final(self)@),
    {
        proof {
            use_type_invariant(&*self);
        }
        let ghost before = self@;
        let mut list: Vec<(u128, u128)> = Vec::new();
        std::mem::swap(&mut list, &mut self.0);
        sort_pairs(&mut list);
        proof {
            lemma_rearranged_canonical(before, list@);
        }
        self.0 = list;
    }

    /// Removes every interval.
    pub fn clear(&mut self)
        ensures
            final(self)@ == Seq::<(u128, u128)>::empty(),
    {
        let mut list: Vec<(u128, u128)> = Vec::new();
        std::mem::swap(&mut list, &mut self.0);
        list.clear();
        self.0 = list;
    }

    /// A copy of the stored intervals, in their stored order.
    pub fn intervals(&self) -> (copy: Vec<(u128, u128)>)
        ensures
            copy@ == self@,
            canonical(copy@),
    {
        proof {
            use_type_invariant(self);
        }
        let n: usize = self.0.len();
        let mut copy: Vec<(u128, u128)> = Vec::new();
        let mut i: usize = 0;
        while i < n
            invariant
                n == self.0.len(),
                i <= n,
                copy@ == self.0@.take(i as int),
            decreases n - i,
        {
            copy.push(self.0[i]);
            i += 1;
        }
        copy
    }
}

} // verus!
