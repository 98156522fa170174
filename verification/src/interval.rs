//! Closed integer intervals over `u128` and sequences of them, as
//! mathematical values.
//!
//! An interval is a pair `(low, high)` and stands for the integers
//! `low..=high`. All arithmetic here is over `int`, so `high + 1` and
//! `low - 1` never wrap.

use vstd::prelude::*;

verus! {

/// `iv` holds `x`: `low <= x <= high`.
pub open spec fn holds(iv: (u128, u128), x: u128) -> bool {
    iv.0 <= x <= iv.1
}

/// Some interval of `s` holds `x`.
pub open spec fn covers(s: Seq<(u128, u128)>, x: u128) -> bool {
    exists|i: int| 0 <= i < s.len() && holds(#[trigger] s[i], x)
}

/// The two intervals overlap, or one ends right before the other begins.
pub open spec fn touches(a: (u128, u128), b: (u128, u128)) -> bool {
    a.0 <= b.1 + 1 && b.0 <= a.1 + 1
}

/// The smallest interval that holds both `a` and `b`.
pub open spec fn hull(a: (u128, u128), b: (u128, u128)) -> (u128, u128) {
    (if a.0 <= b.0 { a.0 } else { b.0 }, if a.1 >= b.1 { a.1 } else { b.1 })
}

/// Every interval of `s` has `low <= high`.
pub open spec fn bounded(s: Seq<(u128, u128)>) -> bool {
    forall|i: int| 0 <= i < s.len() ==> (#[trigger] s[i]).0 <= s[i].1
}

/// No two intervals of `s` overlap or are adjacent.
pub open spec fn separated(s: Seq<(u128, u128)>) -> bool {
    forall|i: int, j: int|
        0 <= i < s.len() && 0 <= j < s.len() && i != j ==> !touches(#[trigger] s[i], #[trigger] s[j])
}

/// The shape every interval set keeps: proper bounds, and no two intervals
/// that could be merged.
pub open spec fn canonical(s: Seq<(u128, u128)>) -> bool {
    bounded(s) && separated(s)
}

/// Two touching intervals cover, between them, exactly their hull.
pub proof fn lemma_hull_holds(a: (u128, u128), b: (u128, u128), x: u128)
    requires
        a.0 <= a.1,
        b.0 <= b.1,
        touches(a, b),
    ensures
        holds(hull(a, b), x) <==> holds(a, x) || holds(b, x),
{
}

/// An interval that touches neither of two touching intervals does not
/// touch their hull.
pub proof fn lemma_hull_apart(a: (u128, u128), b: (u128, u128), c: (u128, u128))
    requires
        a.0 <= a.1,
        b.0 <= b.1,
        c.0 <= c.1,
        touches(a, b),
        !touches(c, a),
        !touches(c, b),
    ensures
        !touches(c, hull(a, b)),
        !touches(hull(a, b), c),
{
}

/// What a sequence extended by one interval covers.
pub proof fn lemma_covers_push(s: Seq<(u128, u128)>, iv: (u128, u128), x: u128)
    ensures
        covers(s.push(iv), x) <==> covers(s, x) || holds(iv, x),
{
    let t = s.push(iv);
    if covers(s, x) {
        let i = choose|i: int| 0 <= i < s.len() && holds(#[trigger] s[i], x);
        assert(t[i] == s[i]);
    }
    if holds(iv, x) {
        assert(t[s.len() as int] == iv);
    }
    if covers(t, x) {
        let i = choose|i: int| 0 <= i < t.len() && holds(#[trigger] t[i], x);
        if i < s.len() {
            assert(t[i] == s[i]);
        }
    }
}

} // verus!
