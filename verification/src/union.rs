//! What taking in whole intervals does to a sequence of intervals, and what
//! holds of it.

use vstd::prelude::*;
use crate::interval::{
    bounded,
    canonical,
    covers,
    holds,
    hull,
    lemma_covers_push,
    lemma_hull_apart,
    lemma_hull_holds,
    touches,
};

verus! {

/// The last index of `s` whose interval touches `o`; `-1` if none does.
pub open spec fn last_touching(s: Seq<(u128, u128)>, o: (u128, u128)) -> int
    decreases s.len(),
{
    if s.len() == 0 {
        -1
    } else if touches(s.last(), o) {
        s.len() - 1
    } else {
        last_touching(s.drop_last(), o)
    }
}

/// The hull of `o` and of every interval of `s` that touches `o`.
pub open spec fn span(s: Seq<(u128, u128)>, o: (u128, u128)) -> (u128, u128)
    decreases s.len(),
{
    if s.len() == 0 {
        o
    } else if touches(s.last(), o) {
        hull(span(s.drop_last(), o), s.last())
    } else {
        span(s.drop_last(), o)
    }
}

/// The intervals of `s` that do not touch `o`, in their order.
pub open spec fn apart(s: Seq<(u128, u128)>, o: (u128, u128)) -> Seq<(u128, u128)>
    decreases s.len(),
{
    if s.len() == 0 {
        s
    } else if touches(s.last(), o) {
        apart(s.drop_last(), o)
    } else {
        apart(s.drop_last(), o).push(s.last())
    }
}

/// The sequence after taking in the interval `o`.
///
/// If no interval touches `o`, `o` is appended. Otherwise all that touch it
/// become, together with `o`, one interval, which stands where the last of
/// them stood; the others leave, and the rest keep their order.
pub open spec fn absorbed(s: Seq<(u128, u128)>, o: (u128, u128)) -> Seq<(u128, u128)> {
    let k = last_touching(s, o);
    if k < 0 {
        s.push(o)
    } else {
        apart(s.take(k), o).push(span(s, o)) + s.skip(k + 1)
    }
}

/// The sequence after taking in the intervals of `others`, one at a time
/// and in their order.
pub open spec fn united(s: Seq<(u128, u128)>, others: Seq<(u128, u128)>) -> Seq<(u128, u128)>
    decreases others.len(),
{
    if others.len() == 0 {
        s
    } else {
        absorbed(united(s, others.drop_last()), others.last())
    }
}

/// `last_touching` finds an interval that touches, and none touches after
/// it.
pub proof fn lemma_last_touching(s: Seq<(u128, u128)>, o: (u128, u128))
    ensures
        -1 <= last_touching(s, o) < s.len(),
        last_touching(s, o) >= 0 ==> touches(s[last_touching(s, o)], o),
        forall|i: int| last_touching(s, o) < i < s.len() ==> !touches(#[trigger] s[i], o),
    decreases s.len(),
{
    if s.len() > 0 && !touches(s.last(), o) {
        let r = s.drop_last();
        lemma_last_touching(r, o);
        assert forall|i: int| last_touching(s, o) < i < s.len() implies !touches(
            #[trigger] s[i],
            o,
        ) by {
            if i < r.len() {
                assert(r[i] == s[i]);
            }
        }
    }
}

/// `span` holds `o`, and covers exactly `o` and the intervals that touch
/// it.
pub proof fn lemma_span_holds(s: Seq<(u128, u128)>, o: (u128, u128), x: u128)
    requires
        bounded(s),
        o.0 <= o.1,
    ensures
        span(s, o).0 <= o.0,
        o.1 <= span(s, o).1,
        holds(span(s, o), x) <==> holds(o, x) || exists|i: int|
            0 <= i < s.len() && touches(#[trigger] s[i], o) && holds(s[i], x),
    decreases s.len(),
{
    if s.len() > 0 {
        let r = s.drop_last();
        assert forall|i: int| 0 <= i < r.len() implies (#[trigger] r[i]).0 <= r[i].1 by {
            assert(r[i] == s[i]);
        }
        lemma_span_holds(r, o, x);
        let among_r = exists|i: int| 0 <= i < r.len() && touches(#[trigger] r[i], o) && holds(r[i], x);
        let among_s = exists|i: int| 0 <= i < s.len() && touches(#[trigger] s[i], o) && holds(s[i], x);
        if among_r {
            let i = choose|i: int| 0 <= i < r.len() && touches(#[trigger] r[i], o) && holds(r[i], x);
            assert(s[i] == r[i]);
        }
        if among_s {
            let i = choose|i: int| 0 <= i < s.len() && touches(#[trigger] s[i], o) && holds(s[i], x);
            if i < r.len() {
                assert(r[i] == s[i]);
            }
        }
        assert(s.last() == s[s.len() - 1]);
        if touches(s.last(), o) {
            lemma_hull_holds(span(r, o), s.last(), x);
        }
    }
}

/// An interval that touches neither `o` nor any interval of `s` that
/// touches `o` does not touch `span(s, o)`.
pub proof fn lemma_span_apart(s: Seq<(u128, u128)>, o: (u128, u128), c: (u128, u128))
    requires
        bounded(s),
        o.0 <= o.1,
        c.0 <= c.1,
        !touches(c, o),
        forall|i: int| 0 <= i < s.len() && touches(#[trigger] s[i], o) ==> !touches(c, s[i]),
    ensures
        span(s, o).0 <= o.0,
        o.1 <= span(s, o).1,
        !touches(c, span(s, o)),
    decreases s.len(),
{
    if s.len() > 0 {
        let r = s.drop_last();
        assert forall|i: int| 0 <= i < r.len() implies (#[trigger] r[i]).0 <= r[i].1 && (touches(
            r[i],
            o,
        ) ==> !touches(c, r[i])) by {
            assert(r[i] == s[i]);
        }
        lemma_span_apart(r, o, c);
        assert(s.last() == s[s.len() - 1]);
        if touches(s.last(), o) {
            lemma_hull_apart(span(r, o), s.last(), c);
        }
    }
}

/// Every interval of `apart(s, o)` is an interval of `s` that does not
/// touch `o`: the one at `p` stands in `s` at the index returned.
pub proof fn lemma_apart_source(s: Seq<(u128, u128)>, o: (u128, u128), p: int) -> (i: int)
    requires
        0 <= p < apart(s, o).len(),
    ensures
        0 <= i < s.len(),
        s[i] == apart(s, o)[p],
        !touches(s[i], o),
    decreases s.len(),
{
    let r = s.drop_last();
    if touches(s.last(), o) {
        lemma_apart_source(r, o, p)
    } else if p < apart(r, o).len() {
        lemma_apart_source(r, o, p)
    } else {
        s.len() - 1
    }
}

/// Every interval of `s` that does not touch `o` is in `apart(s, o)`: the
/// one at `i` stands there at the index returned.
pub proof fn lemma_apart_keeps(s: Seq<(u128, u128)>, o: (u128, u128), i: int) -> (p: int)
    requires
        0 <= i < s.len(),
        !touches(s[i], o),
    ensures
        0 <= p < apart(s, o).len(),
        apart(s, o)[p] == s[i],
    decreases s.len(),
{
    let r = s.drop_last();
    if i < r.len() {
        lemma_apart_keeps(r, o, i)
    } else {
        apart(r, o).len() as int
    }
}

/// A prefix of a canonical sequence is canonical.
proof fn lemma_take_canonical(s: Seq<(u128, u128)>, n: int)
    requires
        canonical(s),
        0 <= n <= s.len(),
    ensures
        canonical(s.take(n)),
{
    let r = s.take(n);
    assert forall|i: int| 0 <= i < r.len() implies (#[trigger] r[i]).0 <= r[i].1 by {
        assert(r[i] == s[i]);
    }
    assert forall|i: int, j: int| 0 <= i < r.len() && 0 <= j < r.len() && i != j implies !touches(
        #[trigger] r[i],
        #[trigger] r[j],
    ) by {
        assert(r[i] == s[i] && r[j] == s[j]);
    }
}

/// A prefix of a sequence with ordered bounds has ordered bounds.
proof fn lemma_take_bounded(s: Seq<(u128, u128)>, n: int)
    requires
        bounded(s),
        0 <= n <= s.len(),
    ensures
        bounded(s.take(n)),
{
    let r = s.take(n);
    assert forall|i: int| 0 <= i < r.len() implies (#[trigger] r[i]).0 <= r[i].1 by {
        assert(r[i] == s[i]);
    }
}

/// Leaving intervals out keeps a canonical sequence canonical.
pub proof fn lemma_apart_canonical(s: Seq<(u128, u128)>, o: (u128, u128))
    requires
        canonical(s),
    ensures
        canonical(apart(s, o)),
    decreases s.len(),
{
    if s.len() > 0 {
        let r = s.drop_last();
        let a = apart(s, o);
        let b = apart(r, o);
        lemma_take_canonical(s, s.len() - 1);
        lemma_apart_canonical(r, o);
        let last = s[s.len() - 1];
        if !touches(s.last(), o) {
            assert forall|p: int| 0 <= p < b.len() implies !touches(#[trigger] b[p], last)
                && !touches(last, b[p]) by {
                let i = lemma_apart_source(r, o, p);
                assert(s[i] == r[i]);
                assert(!touches(s[i], s[s.len() - 1]));
            }
            assert forall|p: int| 0 <= p < a.len() implies (#[trigger] a[p]).0 <= a[p].1 by {
                if p < b.len() {
                    assert(a[p] == b[p]);
                }
            }
            assert forall|p: int, q: int| 0 <= p < a.len() && 0 <= q < a.len() && p != q implies !touches(
                #[trigger] a[p],
                #[trigger] a[q],
            ) by {
                if p < b.len() {
                    assert(a[p] == b[p]);
                }
                if q < b.len() {
                    assert(a[q] == b[q]);
                }
            }
        }
    }
}

/// Where nothing touches `o`, taking it in appends it unchanged.
pub proof fn lemma_absorbed_untouched(s: Seq<(u128, u128)>, o: (u128, u128))
    requires
        forall|i: int| 0 <= i < s.len() ==> !touches(#[trigger] s[i], o),
    ensures
        absorbed(s, o) == s.push(o),
{
    lemma_last_touching(s, o);
}

/// Where something touches `o`, every interval of `absorbed(s, o)` but the
/// merged one is an interval of `s` that does not touch `o`: the one at `p`
/// stands in `s` at the index returned, on the same side of the merged one.
proof fn lemma_absorbed_source(s: Seq<(u128, u128)>, o: (u128, u128), p: int) -> (i: int)
    requires
        last_touching(s, o) >= 0,
        0 <= p < absorbed(s, o).len(),
        p != apart(s.take(last_touching(s, o)), o).len(),
    ensures
        0 <= i < s.len(),
        s[i] == absorbed(s, o)[p],
        !touches(s[i], o),
        p < apart(s.take(last_touching(s, o)), o).len() ==> i < last_touching(s, o),
        p > apart(s.take(last_touching(s, o)), o).len() ==> i == p - apart(
            s.take(last_touching(s, o)),
            o,
        ).len() + last_touching(s, o),
{
    lemma_last_touching(s, o);
    let k = last_touching(s, o);
    let head = s.take(k);
    let tail = s.skip(k + 1);
    let a = apart(head, o);
    let t = absorbed(s, o);
    if p < a.len() {
        let i = lemma_apart_source(head, o, p);
        assert(t[p] == a[p]);
        assert(head[i] == s[i]);
        i
    } else {
        assert(t[p] == tail[p - a.len() - 1]);
        p - a.len() + k
    }
}

/// Where something touches `o`, every interval of `s` that does not touch
/// `o` is in `absorbed(s, o)`: the one at `i` stands there at the index
/// returned.
proof fn lemma_absorbed_keeps(s: Seq<(u128, u128)>, o: (u128, u128), i: int) -> (p: int)
    requires
        last_touching(s, o) >= 0,
        0 <= i < s.len(),
        !touches(s[i], o),
    ensures
        0 <= p < absorbed(s, o).len(),
        absorbed(s, o)[p] == s[i],
{
    lemma_last_touching(s, o);
    let k = last_touching(s, o);
    let head = s.take(k);
    let tail = s.skip(k + 1);
    let a = apart(head, o);
    let t = absorbed(s, o);
    if i < k {
        assert(head[i] == s[i]);
        let p = lemma_apart_keeps(head, o, i);
        assert(t[p] == a[p]);
        p
    } else {
        assert(tail[i - k - 1] == s[i]);
        assert(t[a.len() + i - k] == tail[i - k - 1]);
        a.len() + i - k
    }
}

/// Where something touches `o`, the merged interval stands in
/// `absorbed(s, o)` at the index returned.
proof fn lemma_absorbed_merged(s: Seq<(u128, u128)>, o: (u128, u128)) -> (p: int)
    requires
        last_touching(s, o) >= 0,
    ensures
        0 <= p < absorbed(s, o).len(),
        p == apart(s.take(last_touching(s, o)), o).len(),
        absorbed(s, o)[p] == span(s, o),
{
    lemma_last_touching(s, o);
    let k = last_touching(s, o);
    let a = apart(s.take(k), o);
    assert(a.push(span(s, o))[a.len() as int] == span(s, o));
    a.len() as int
}

/// Taking in `o` adds the values of `o` to what the sequence covers, and
/// nothing else.
pub proof fn lemma_absorbed_covers(s: Seq<(u128, u128)>, o: (u128, u128), x: u128)
    requires
        bounded(s),
        o.0 <= o.1,
    ensures
        covers(absorbed(s, o), x) <==> covers(s, x) || holds(o, x),
{
    lemma_last_touching(s, o);
    let k = last_touching(s, o);
    let t = absorbed(s, o);
    if k < 0 {
        lemma_covers_push(s, o, x);
    } else {
        let at = lemma_absorbed_merged(s, o);
        lemma_span_holds(s, o, x);
        if covers(t, x) {
            let p = choose|p: int| 0 <= p < t.len() && holds(#[trigger] t[p], x);
            if p != at {
                let i = lemma_absorbed_source(s, o, p);
                assert(holds(s[i], x));
            } else if !holds(o, x) {
                let i = choose|i: int| 0 <= i < s.len() && touches(#[trigger] s[i], o) && holds(s[i], x);
                assert(holds(s[i], x));
            }
        }
        if holds(o, x) {
            assert(holds(t[at], x));
        }
        if covers(s, x) {
            let i = choose|i: int| 0 <= i < s.len() && holds(#[trigger] s[i], x);
            if touches(s[i], o) {
                assert(holds(t[at], x));
            } else {
                let p = lemma_absorbed_keeps(s, o, i);
                assert(holds(t[p], x));
            }
        }
    }
}

/// Taking in an interval keeps every interval's bounds in order.
pub proof fn lemma_absorbed_bounded(s: Seq<(u128, u128)>, o: (u128, u128))
    requires
        bounded(s),
        o.0 <= o.1,
    ensures
        bounded(absorbed(s, o)),
{
    lemma_last_touching(s, o);
    let k = last_touching(s, o);
    let t = absorbed(s, o);
    if k < 0 {
        assert forall|p: int| 0 <= p < t.len() implies (#[trigger] t[p]).0 <= t[p].1 by {
            if p < s.len() {
                assert(t[p] == s[p]);
            }
        }
    } else {
        let at = lemma_absorbed_merged(s, o);
        lemma_span_holds(s, o, 0);
        assert forall|p: int| 0 <= p < t.len() implies (#[trigger] t[p]).0 <= t[p].1 by {
            if p != at {
                lemma_absorbed_source(s, o, p);
            }
        }
    }
}

/// Taking an interval into a canonical sequence leaves it canonical.
pub proof fn lemma_absorbed_canonical(s: Seq<(u128, u128)>, o: (u128, u128))
    requires
        canonical(s),
        o.0 <= o.1,
    ensures
        canonical(absorbed(s, o)),
{
    lemma_last_touching(s, o);
    lemma_absorbed_bounded(s, o);
    let k = last_touching(s, o);
    let t = absorbed(s, o);
    if k < 0 {
        assert forall|p: int, q: int| 0 <= p < t.len() && 0 <= q < t.len() && p != q implies !touches(
            #[trigger] t[p],
            #[trigger] t[q],
        ) by {
            if p < s.len() {
                assert(t[p] == s[p]);
            }
            if q < s.len() {
                assert(t[q] == s[q]);
            }
        }
    } else {
        let a = apart(s.take(k), o);
        let m = span(s, o);
        let at = lemma_absorbed_merged(s, o);
        lemma_take_canonical(s, k);
        lemma_apart_canonical(s.take(k), o);
        assert forall|p: int| 0 <= p < t.len() && p != at implies !touches(#[trigger] t[p], m)
            && !touches(m, t[p]) by {
            let c = t[p];
            let i = lemma_absorbed_source(s, o, p);
            assert forall|j: int| 0 <= j < s.len() && touches(#[trigger] s[j], o) implies !touches(
                c,
                s[j],
            ) by {
                assert(!touches(s[i], s[j]));
            }
            lemma_span_apart(s, o, c);
        }
        assert forall|p: int, q: int| 0 <= p < t.len() && 0 <= q < t.len() && p != q implies !touches(
            #[trigger] t[p],
            #[trigger] t[q],
        ) by {
            if p != at && q != at {
                if p < at && q < at {
                    assert(t[p] == a[p] && t[q] == a[q]);
                } else {
                    let i = lemma_absorbed_source(s, o, p);
                    let j = lemma_absorbed_source(s, o, q);
                    assert(!touches(s[i], s[j]));
                }
            }
        }
    }
}

/// Taking in `others` adds what `others` covers to what the sequence
/// covers, and nothing else.
pub proof fn lemma_united_covers(s: Seq<(u128, u128)>, others: Seq<(u128, u128)>, x: u128)
    requires
        bounded(s),
        bounded(others),
    ensures
        bounded(united(s, others)),
        covers(united(s, others), x) <==> covers(s, x) || covers(others, x),
    decreases others.len(),
{
    if others.len() > 0 {
        let r = others.drop_last();
        let o = others[others.len() - 1];
        lemma_take_bounded(others, others.len() - 1);
        lemma_united_covers(s, r, x);
        lemma_absorbed_covers(united(s, r), o, x);
        lemma_absorbed_bounded(united(s, r), o);
        assert(others == r.push(o));
        lemma_covers_push(r, o, x);
    }
}

/// Taking intervals into a canonical sequence leaves it canonical, whatever
/// order and shape the intervals taken in have.
pub proof fn lemma_united_canonical(s: Seq<(u128, u128)>, others: Seq<(u128, u128)>)
    requires
        canonical(s),
        bounded(others),
    ensures
        canonical(united(s, others)),
    decreases others.len(),
{
    if others.len() > 0 {
        lemma_take_bounded(others, others.len() - 1);
        lemma_united_canonical(s, others.drop_last());
        lemma_absorbed_canonical(united(s, others.drop_last()), others[others.len() - 1]);
    }
}

} // verus!
