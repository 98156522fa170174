//! What inserting one value does to a sequence of intervals, and what holds
//! of it.

use vstd::prelude::*;
use crate::interval::{bounded, canonical, covers, holds, hull, lemma_covers_push, touches};

verus! {

/// `v` lies right below or right above `iv`.
pub open spec fn adjoins(iv: (u128, u128), v: u128) -> bool {
    v + 1 == iv.0 || iv.1 + 1 == v
}

/// `iv` stretched by one to take in an adjoining `v`; `iv` itself if `v`
/// does not adjoin it.
pub open spec fn grown(iv: (u128, u128), v: u128) -> (u128, u128) {
    if v + 1 == iv.0 {
        (v, iv.1)
    } else if iv.1 + 1 == v {
        (iv.0, v)
    } else {
        iv
    }
}

/// The first index at or after `from` whose interval `v` adjoins;
/// `s.len()` if there is none.
pub open spec fn next_adjoining(s: Seq<(u128, u128)>, v: u128, from: int) -> int
    decreases s.len() - from,
{
    if from < 0 || from >= s.len() {
        s.len() as int
    } else if adjoins(s[from], v) {
        from
    } else {
        next_adjoining(s, v, from + 1)
    }
}

/// The sequence after inserting `v`.
///
/// A covered `v` changes nothing. Otherwise the first interval that `v`
/// adjoins grows to take it in; if a later interval adjoins `v` too, the
/// two become one, which stays in the place of the first, and the later one
/// leaves. If `v` adjoins nothing, `(v, v)` is appended.
pub open spec fn inserted(s: Seq<(u128, u128)>, v: u128) -> Seq<(u128, u128)> {
    if covers(s, v) {
        s
    } else {
        let i = next_adjoining(s, v, 0);
        if i >= s.len() {
            s.push((v, v))
        } else {
            let j = next_adjoining(s, v, i + 1);
            if j >= s.len() {
                s.update(i, grown(s[i], v))
            } else {
                s.update(i, hull(grown(s[i], v), grown(s[j], v))).remove(j)
            }
        }
    }
}

/// `next_adjoining` finds an adjoining interval, and skips none.
pub proof fn lemma_next_adjoining(s: Seq<(u128, u128)>, v: u128, from: int)
    requires
        0 <= from <= s.len(),
    ensures
        from <= next_adjoining(s, v, from) <= s.len(),
        next_adjoining(s, v, from) < s.len() ==> adjoins(s[next_adjoining(s, v, from)], v),
        forall|k: int| from <= k < next_adjoining(s, v, from) ==> !adjoins(#[trigger] s[k], v),
    decreases s.len() - from,
{
    if from < s.len() && !adjoins(s[from], v) {
        lemma_next_adjoining(s, v, from + 1);
    }
}

/// In a canonical sequence that does not cover `v`, at most two intervals
/// adjoin `v`: one from below and one from above.
proof fn lemma_two_neighbours(s: Seq<(u128, u128)>, v: u128, i: int, j: int, k: int)
    requires
        canonical(s),
        0 <= i < s.len(),
        0 <= j < s.len(),
        0 <= k < s.len(),
        i != j,
        adjoins(s[i], v),
        adjoins(s[j], v),
        adjoins(s[k], v),
    ensures
        k == i || k == j,
{
}

/// Inserting `v` adds `v` to what the sequence covers, and nothing else.
pub proof fn lemma_inserted_covers(s: Seq<(u128, u128)>, v: u128, x: u128)
    requires
        bounded(s),
    ensures
        covers(inserted(s, v), x) <==> covers(s, x) || x == v,
{
    let t = inserted(s, v);
    if covers(s, v) {
    } else {
        lemma_next_adjoining(s, v, 0);
        let i = next_adjoining(s, v, 0);
        if i >= s.len() {
            lemma_covers_push(s, (v, v), x);
        } else {
            lemma_next_adjoining(s, v, i + 1);
            let j = next_adjoining(s, v, i + 1);
            if j >= s.len() {
                assert(holds(t[i], x) <==> holds(s[i], x) || x == v);
                if covers(s, x) {
                    let a = choose|a: int| 0 <= a < s.len() && holds(#[trigger] s[a], x);
                    assert(holds(t[a], x));
                }
                if covers(t, x) {
                    let a = choose|a: int| 0 <= a < t.len() && holds(#[trigger] t[a], x);
                    assert(a != i ==> t[a] == s[a]);
                }
            } else {
                let m = hull(grown(s[i], v), grown(s[j], v));
                assert(holds(m, x) <==> holds(s[i], x) || holds(s[j], x) || x == v);
                assert(t[i] == m);
                if covers(s, x) {
                    let a = choose|a: int| 0 <= a < s.len() && holds(#[trigger] s[a], x);
                    if a == i || a == j {
                        assert(holds(t[i], x));
                    } else if a < j {
                        assert(t[a] == s[a]);
                    } else {
                        assert(t[a - 1] == s[a]);
                    }
                }
                if covers(t, x) {
                    let a = choose|a: int| 0 <= a < t.len() && holds(#[trigger] t[a], x);
                    if a == i {
                    } else if a < j {
                        assert(t[a] == s[a]);
                    } else {
                        assert(t[a] == s[a + 1]);
                    }
                }
            }
        }
    }
}

/// Inserting into a canonical sequence leaves it canonical: one merge is
/// always enough.
pub proof fn lemma_inserted_canonical(s: Seq<(u128, u128)>, v: u128)
    requires
        canonical(s),
    ensures
        canonical(inserted(s, v)),
{
    let t = inserted(s, v);
    if covers(s, v) {
    } else {
        lemma_next_adjoining(s, v, 0);
        let i = next_adjoining(s, v, 0);
        assert forall|k: int| 0 <= k < s.len() implies !holds(#[trigger] s[k], v) by {}
        if i >= s.len() {
            assert forall|a: int, b: int| 0 <= a < t.len() && 0 <= b < t.len() && a != b implies !touches(
                #[trigger] t[a],
                #[trigger] t[b],
            ) by {
                if a < s.len() {
                    assert(t[a] == s[a]);
                    assert(!adjoins(s[a], v) && !holds(s[a], v));
                }
                if b < s.len() {
                    assert(t[b] == s[b]);
                    assert(!adjoins(s[b], v) && !holds(s[b], v));
                }
            }
        } else {
            lemma_next_adjoining(s, v, i + 1);
            let j = next_adjoining(s, v, i + 1);
            if j >= s.len() {
                assert forall|a: int, b: int| 0 <= a < t.len() && 0 <= b < t.len() && a != b implies !touches(
                    #[trigger] t[a],
                    #[trigger] t[b],
                ) by {
                    assert(!touches(s[a], s[b]));
                    assert(!holds(s[a], v) && !holds(s[b], v));
                    assert(a != i ==> t[a] == s[a] && !adjoins(s[a], v));
                    assert(b != i ==> t[b] == s[b] && !adjoins(s[b], v));
                }
            } else {
                let m = hull(grown(s[i], v), grown(s[j], v));
                assert(!touches(s[i], s[j]));
                assert(m.0 <= m.1);
                assert forall|k: int| 0 <= k < s.len() && k != i && k != j implies !touches(
                    #[trigger] s[k],
                    m,
                ) && !touches(m, s[k]) by {
                    if adjoins(s[k], v) {
                        lemma_two_neighbours(s, v, i, j, k);
                    }
                    assert(!touches(s[k], s[i]));
                    assert(!touches(s[k], s[j]));
                    assert(!holds(s[k], v));
                }
                assert forall|a: int| 0 <= a < t.len() implies (#[trigger] t[a]).0 <= t[a].1 by {
                    if a == i {
                    } else if a < j {
                        assert(t[a] == s[a]);
                    } else {
                        assert(t[a] == s[a + 1]);
                    }
                }
                assert forall|a: int, b: int| 0 <= a < t.len() && 0 <= b < t.len() && a != b implies !touches(
                    #[trigger] t[a],
                    #[trigger] t[b],
                ) by {
                    let sa = if a < j { a } else { a + 1 };
                    let sb = if b < j { b } else { b + 1 };
                    assert(a != i ==> t[a] == s[sa]);
                    assert(b != i ==> t[b] == s[sb]);
                    assert(t[i] == m);
                    assert(!touches(s[sa], s[sb]));
                }
            }
        }
    }
}

/// Inserting the same value a second time finds it covered and changes
/// nothing.
pub proof fn lemma_insert_twice(s: Seq<(u128, u128)>, v: u128)
    requires
        bounded(s),
    ensures
        covers(inserted(s, v), v),
        inserted(inserted(s, v), v) == inserted(s, v),
{
    lemma_inserted_covers(s, v, v);
}

/// A value that adjoins the one interval of a sequence stretches it.
pub proof fn lemma_stretch_single(iv: (u128, u128), v: u128)
    requires
        iv.0 <= iv.1,
        adjoins(iv, v),
    ensures
        !covers(seq![iv], v),
        inserted(seq![iv], v) == seq![grown(iv, v)],
{
    let s = seq![iv];
    assert(s[0] == iv);
    lemma_next_adjoining(s, v, 0);
    lemma_next_adjoining(s, v, 1);
    assert(inserted(s, v) =~= seq![grown(iv, v)]);
}

/// Two values next to each other, inserted into the empty sequence in
/// either order, make the one interval that holds both; each of the two
/// insertions is of a value not covered before.
pub proof fn lemma_neighbours_merge(v: u128)
    requires
        v < u128::MAX,
    ensures
        !covers(inserted(Seq::empty(), v), (v + 1) as u128),
        inserted(inserted(Seq::empty(), v), (v + 1) as u128) == seq![(v, (v + 1) as u128)],
        !covers(inserted(Seq::empty(), (v + 1) as u128), v),
        inserted(inserted(Seq::empty(), (v + 1) as u128), v) == seq![(v, (v + 1) as u128)],
{
    let w = (v + 1) as u128;
    let e = Seq::<(u128, u128)>::empty();
    assert(inserted(e, v) =~= seq![(v, v)]);
    assert(inserted(e, w) =~= seq![(w, w)]);
    lemma_stretch_single((v, v), w);
    lemma_stretch_single((w, w), v);
}

} // verus!
