//! The mathematical model of a map's content: its entries in ascending
//! order, and what each operation makes of them.
use vstd::prelude::*;

use crate::segment::Segment;

verus! {

/// Every segment is well formed and each one lies wholly before the next.
/// This is the invariant of every map: stored segments never overlap, and
/// they are kept in ascending order.
pub open spec fn sorted<X>(c: Seq<(Segment, X)>) -> bool {
    &&& forall|i: int| 0 <= i < c.len() ==> (#[trigger] c[i]).0.wf()
    &&& forall|i: int, j: int|
        0 <= i < j < c.len() ==> (#[trigger] c[i]).0.precedes((#[trigger] c[j]).0)
}

/// Some entry of `c` holds `key`.
pub open spec fn holds_key<V>(c: Seq<(Segment, V)>, key: int) -> bool {
    exists|i: int| 0 <= i < c.len() && (#[trigger] c[i]).0.contains(key)
}

/// Some entry of `c` overlaps `s`.
pub open spec fn clashes<V>(c: Seq<(Segment, V)>, s: Segment) -> bool {
    exists|i: int| 0 <= i < c.len() && (#[trigger] c[i]).0.overlaps(s)
}

/// `x` put into its place in the ordered content `c`.
pub open spec fn inserted<V>(c: Seq<(Segment, V)>, x: (Segment, V)) -> Seq<(Segment, V)>
    decreases c.len(),
{
    if c.len() == 0 {
        seq![x]
    } else if x.0.precedes(c[0].0) {
        seq![x] + c
    } else {
        seq![c[0]] + inserted(c.drop_first(), x)
    }
}

/// The content after inserting each of `xs` in turn.
pub open spec fn inserted_all<V>(c: Seq<(Segment, V)>, xs: Seq<(Segment, V)>) -> Seq<
    (Segment, V),
>
    decreases xs.len(),
{
    if xs.len() == 0 {
        c
    } else {
        inserted_all(inserted(c, xs[0]), xs.drop_first())
    }
}

/// The entry lies wholly before `t`.
pub open spec fn lies_before<X>(t: Segment) -> spec_fn((Segment, X)) -> bool {
    |e: (Segment, X)| e.0.precedes(t)
}

/// The entry overlaps `t`.
pub open spec fn meets<X>(t: Segment) -> spec_fn((Segment, X)) -> bool {
    |e: (Segment, X)| e.0.overlaps(t)
}

/// The entry lies wholly after `t`.
pub open spec fn lies_after<X>(t: Segment) -> spec_fn((Segment, X)) -> bool {
    |e: (Segment, X)| t.precedes(e.0)
}

/// The entries of `c` that satisfy `p`, in order.
pub open spec fn keep<X>(c: Seq<(Segment, X)>, p: spec_fn((Segment, X)) -> bool) -> Seq<
    (Segment, X),
>
    decreases c.len(),
{
    if c.len() == 0 {
        seq![]
    } else {
        let rest = keep(c.drop_last(), p);
        if p(c.last()) {
            rest.push(c.last())
        } else {
            rest
        }
    }
}

/// The entries of `c` that lie wholly before `t`.
pub open spec fn before<V>(c: Seq<(Segment, V)>, t: Segment) -> Seq<(Segment, V)> {
    keep(c, lies_before(t))
}

/// The entries of `c` that overlap `t`.
pub open spec fn touched<V>(c: Seq<(Segment, V)>, t: Segment) -> Seq<(Segment, V)> {
    keep(c, meets(t))
}

/// The entries of `c` that lie wholly after `t`.
pub open spec fn after<V>(c: Seq<(Segment, V)>, t: Segment) -> Seq<(Segment, V)> {
    keep(c, lies_after(t))
}

/// What is left of the first touched entry in front of `t`.
pub open spec fn left_rest<V>(m: Seq<(Segment, V)>, t: Segment) -> Seq<(Segment, V)> {
    if m.len() > 0 && m[0].0.start < t.start {
        seq![(Segment { start: m[0].0.start, end: t.start }, m[0].1)]
    } else {
        seq![]
    }
}

/// What is left of the last touched entry behind `t`.
pub open spec fn right_rest<V>(m: Seq<(Segment, V)>, t: Segment) -> Seq<(Segment, V)> {
    if m.len() > 0 && t.end < m.last().0.end {
        seq![(Segment { start: t.end, end: m.last().0.end }, m.last().1)]
    } else {
        seq![]
    }
}

/// The part of the segment `e` inside `t`, from `cursor` on.
pub open spec fn middle(e: Segment, cursor: i64, t: Segment) -> Segment {
    Segment {
        start: if e.start < cursor {
            cursor
        } else {
            e.start
        },
        end: if e.end < t.end {
            e.end
        } else {
            t.end
        },
    }
}

/// The parts of `t` from `cursor` on, each with the value that held it
/// before: the part of each touched entry inside `t`, and the gaps between
/// them, which held nothing.
pub open spec fn slots_from<V>(m: Seq<(Segment, V)>, cursor: i64, t: Segment) -> Seq<
    (Segment, Option<V>),
>
    decreases m.len(),
{
    if m.len() == 0 {
        if cursor < t.end {
            seq![(Segment { start: cursor, end: t.end }, None)]
        } else {
            seq![]
        }
    } else {
        let mid = middle(m[0].0, cursor, t);
        let gap: Seq<(Segment, Option<V>)> = if cursor < mid.start {
            seq![(Segment { start: cursor, end: mid.start }, None)]
        } else {
            seq![]
        };
        gap + seq![(mid, Some(m[0].1))] + slots_from(m.drop_first(), mid.end, t)
    }
}

/// The parts of `t` that a rewrite offers to its function, in order, each
/// with its prior value. Where nothing touches `t`, that is `t` itself.
pub open spec fn slots<V>(m: Seq<(Segment, V)>, t: Segment) -> Seq<(Segment, Option<V>)> {
    if m.len() == 0 {
        seq![(t, None)]
    } else {
        slots_from(m, t.start, t)
    }
}

/// The entries that the outcomes `outs` of the slots `s` give: one for each
/// slot whose outcome is a value.
pub open spec fn emitted<V>(s: Seq<(Segment, Option<V>)>, outs: Seq<Option<V>>) -> Seq<
    (Segment, V),
>
    decreases s.len(),
{
    if s.len() == 0 || outs.len() == 0 {
        seq![]
    } else {
        let rest = emitted(s.drop_last(), outs.drop_last());
        match outs.last() {
            Some(v) => rest.push((s.last().0, v)),
            None => rest,
        }
    }
}

/// The content after rewriting `t`, where the function gave `outs` for the
/// slots of `t`.
pub open spec fn spliced<V>(c: Seq<(Segment, V)>, t: Segment, outs: Seq<Option<V>>) -> Seq<
    (Segment, V),
> {
    let m = touched(c, t);
    before(c, t) + left_rest(m, t) + emitted(slots(m, t), outs) + right_rest(m, t) + after(c, t)
}

/// The content after removing `t`: what lies outside `t` stays.
pub open spec fn removed<V>(c: Seq<(Segment, V)>, t: Segment) -> Seq<(Segment, V)> {
    let m = touched(c, t);
    before(c, t) + left_rest(m, t) + right_rest(m, t) + after(c, t)
}

pub(crate) proof fn lemma_sorted_concat<X>(a: Seq<(Segment, X)>, b: Seq<(Segment, X)>)
    requires
        sorted(a),
        sorted(b),
        forall|i: int, j: int|
            0 <= i < a.len() && 0 <= j < b.len() ==> (#[trigger] a[i]).0.precedes(
                (#[trigger] b[j]).0,
            ),
    ensures
        sorted(a + b),
{
    let c = a + b;
    assert forall|i: int, j: int| 0 <= i < j < c.len() implies (#[trigger] c[i]).0.precedes(
        (#[trigger] c[j]).0,
    ) by {
        if j < a.len() {
            assert(c[i] == a[i] && c[j] == a[j]);
        } else if i >= a.len() {
            assert(c[i] == b[i - a.len()] && c[j] == b[j - a.len()]);
        } else {
            assert(c[i] == a[i] && c[j] == b[j - a.len()]);
        }
    }
    assert forall|i: int| 0 <= i < c.len() implies (#[trigger] c[i]).0.wf() by {
        if i < a.len() {
            assert(c[i] == a[i]);
        } else {
            assert(c[i] == b[i - a.len()]);
        }
    }
}

pub(crate) proof fn lemma_sorted_parts<X>(a: Seq<(Segment, X)>, b: Seq<(Segment, X)>)
    requires
        sorted(a + b),
    ensures
        sorted(a),
        sorted(b),
        forall|i: int, j: int|
            0 <= i < a.len() && 0 <= j < b.len() ==> (#[trigger] a[i]).0.precedes(
                (#[trigger] b[j]).0,
            ),
{
    let c = a + b;
    assert forall|i: int, j: int| 0 <= i < j < a.len() implies (#[trigger] a[i]).0.precedes(
        (#[trigger] a[j]).0,
    ) by {
        assert(c[i] == a[i] && c[j] == a[j]);
    }
    assert forall|i: int, j: int| 0 <= i < j < b.len() implies (#[trigger] b[i]).0.precedes(
        (#[trigger] b[j]).0,
    ) by {
        assert(c[i + a.len()] == b[i] && c[j + a.len()] == b[j]);
    }
    assert forall|i: int, j: int|
        0 <= i < a.len() && 0 <= j < b.len() implies (#[trigger] a[i]).0.precedes(
        (#[trigger] b[j]).0,
    ) by {
        assert(c[i] == a[i] && c[j + a.len()] == b[j]);
    }
    assert forall|i: int| 0 <= i < a.len() implies (#[trigger] a[i]).0.wf() by {
        assert(c[i] == a[i]);
    }
    assert forall|i: int| 0 <= i < b.len() implies (#[trigger] b[i]).0.wf() by {
        assert(c[i + a.len()] == b[i]);
    }
}

} // verus!

verus! {

/// Every entry of `s` lies wholly before `t`.
pub open spec fn all_before<X>(s: Seq<(Segment, X)>, t: Segment) -> bool {
    forall|i: int| 0 <= i < s.len() ==> (#[trigger] s[i]).0.precedes(t)
}

/// Every entry of `s` overlaps `t`.
pub open spec fn all_meet<X>(s: Seq<(Segment, X)>, t: Segment) -> bool {
    forall|i: int| 0 <= i < s.len() ==> (#[trigger] s[i]).0.overlaps(t)
}

/// Every entry of `s` lies wholly after `t`.
pub open spec fn all_after<X>(s: Seq<(Segment, X)>, t: Segment) -> bool {
    forall|i: int| 0 <= i < s.len() ==> t.precedes((#[trigger] s[i]).0)
}

pub(crate) proof fn lemma_all_concat<X>(a: Seq<(Segment, X)>, b: Seq<(Segment, X)>, t: Segment)
    ensures
        all_before(a + b, t) <==> all_before(a, t) && all_before(b, t),
        all_meet(a + b, t) <==> all_meet(a, t) && all_meet(b, t),
        all_after(a + b, t) <==> all_after(a, t) && all_after(b, t),
{
    let c = a + b;
    assert forall|i: int| 0 <= i < a.len() implies c[i] == a[i] by {}
    assert forall|i: int| 0 <= i < b.len() implies c[i + a.len()] == b[i] by {}
    assert forall|i: int| 0 <= i < c.len() implies (i < a.len() && c[i] == a[i]) || (i >= a.len()
        && c[i] == b[i - a.len()]) by {}
}

} // verus!

verus! {

pub(crate) proof fn lemma_inserted_elems<V>(c: Seq<(Segment, V)>, y: (Segment, V))
    ensures
        inserted(c, y).len() == c.len() + 1,
        forall|k: int|
            0 <= k < inserted(c, y).len() ==> #[trigger] inserted(c, y)[k] == y || c.contains(
                inserted(c, y)[k],
            ),
        inserted(c, y).contains(y),
        forall|k: int| 0 <= k < c.len() ==> inserted(c, y).contains(#[trigger] c[k]),
    decreases c.len(),
{
    let r = inserted(c, y);
    if c.len() == 0 {
        assert(r[0] == y);
    } else if y.0.precedes(c[0].0) {
        assert(r[0] == y);
        assert forall|k: int| 0 <= k < r.len() implies #[trigger] r[k] == y || c.contains(r[k]) by {
            if k > 0 {
                assert(r[k] == c[k - 1]);
            }
        }
        assert forall|k: int| 0 <= k < c.len() implies r.contains(#[trigger] c[k]) by {
            assert(r[k + 1] == c[k]);
        }
    } else {
        let rest = c.drop_first();
        lemma_inserted_elems(rest, y);
        let ir = inserted(rest, y);
        assert(r == seq![c[0]] + ir);
        assert forall|k: int| 0 <= k < r.len() implies #[trigger] r[k] == y || c.contains(r[k]) by {
            if k > 0 {
                assert(r[k] == ir[k - 1]);
                if ir[k - 1] != y {
                    let j = choose|j: int| 0 <= j < rest.len() && rest[j] == ir[k - 1];
                    assert(c[j + 1] == rest[j]);
                }
            } else {
                assert(c[0] == r[0]);
            }
        }
        let j = choose|j: int| 0 <= j < ir.len() && ir[j] == y;
        assert(r[j + 1] == y);
        assert forall|k: int| 0 <= k < c.len() implies r.contains(#[trigger] c[k]) by {
            if k == 0 {
                assert(r[0] == c[0]);
            } else {
                assert(rest[k - 1] == c[k]);
                let j = choose|j: int| 0 <= j < ir.len() && ir[j] == rest[k - 1];
                assert(r[j + 1] == c[k]);
            }
        }
    }
}

pub(crate) proof fn lemma_inserted_sorted<V>(c: Seq<(Segment, V)>, y: (Segment, V))
    requires
        sorted(c),
        y.0.wf(),
        !clashes(c, y.0),
    ensures
        sorted(inserted(c, y)),
    decreases c.len(),
{
    let r = inserted(c, y);
    if c.len() == 0 {
    } else if y.0.precedes(c[0].0) {
        assert forall|j: int| 0 <= j < c.len() implies y.0.precedes((#[trigger] c[j]).0) by {
            if j > 0 {
                Segment::lemma_trans(y.0, c[0].0, c[j].0);
            }
        }
        lemma_sorted_concat(seq![y], c);
    } else {
        let rest = c.drop_first();
        assert forall|i: int| 0 <= i < rest.len() implies !(#[trigger] rest[i]).0.overlaps(y.0) by {
            assert(rest[i] == c[i + 1]);
        }
        assert forall|i: int, j: int| 0 <= i < j < rest.len() implies (#[trigger] rest[i]).0.precedes(
            (#[trigger] rest[j]).0,
        ) by {
            assert(rest[i] == c[i + 1] && rest[j] == c[j + 1]);
        }
        assert forall|i: int| 0 <= i < rest.len() implies (#[trigger] rest[i]).0.wf() by {
            assert(rest[i] == c[i + 1]);
        }
        lemma_inserted_sorted(rest, y);
        lemma_inserted_elems(rest, y);
        let ir = inserted(rest, y);
        assert(!c[0].0.overlaps(y.0));
        c[0].0.lemma_order(y.0);
        assert forall|j: int| 0 <= j < ir.len() implies c[0].0.precedes((#[trigger] ir[j]).0) by {
            if ir[j] != y {
                let k = choose|k: int| 0 <= k < rest.len() && rest[k] == ir[j];
                assert(c[k + 1] == rest[k]);
            }
        }
        lemma_sorted_concat(seq![c[0]], ir);
    }
}

pub(crate) proof fn lemma_inserted_front<V>(
    a: Seq<(Segment, V)>,
    b: Seq<(Segment, V)>,
    y: (Segment, V),
)
    requires
        b.len() > 0,
        y.0.precedes(b[0].0),
    ensures
        inserted(a + b, y) == inserted(a, y) + b,
    decreases a.len(),
{
    if a.len() == 0 {
        assert(a + b =~= b);
    } else {
        assert((a + b)[0] == a[0]);
        if !y.0.precedes(a[0].0) {
            assert((a + b).drop_first() =~= a.drop_first() + b);
            lemma_inserted_front(a.drop_first(), b, y);
            assert(inserted(a + b, y) =~= inserted(a, y) + b);
        } else {
            assert(inserted(a + b, y) =~= inserted(a, y) + b);
        }
    }
}

pub(crate) proof fn lemma_inserted_back<V>(
    a: Seq<(Segment, V)>,
    b: Seq<(Segment, V)>,
    y: (Segment, V),
)
    requires
        forall|i: int| 0 <= i < a.len() ==> !y.0.precedes((#[trigger] a[i]).0),
    ensures
        inserted(a + b, y) == a + inserted(b, y),
    decreases a.len(),
{
    if a.len() == 0 {
        assert(a + b =~= b);
        assert(a + inserted(b, y) =~= inserted(b, y));
    } else {
        assert((a + b)[0] == a[0]);
        let a1 = a.drop_first();
        assert((a + b).drop_first() =~= a1 + b);
        assert forall|i: int| 0 <= i < a1.len() implies !y.0.precedes((#[trigger] a1[i]).0) by {
            assert(a1[i] == a[i + 1]);
        }
        lemma_inserted_back(a1, b, y);
        assert(inserted(a + b, y) =~= a + inserted(b, y));
    }
}

} // verus!

verus! {

/// Every segment of `s` ends at or before position `h` of the doubled line.
pub open spec fn ends_by<X>(s: Seq<(Segment, X)>, h: int) -> bool {
    forall|k: int| 0 <= k < s.len() ==> (#[trigger] s[k]).0.hi() <= h
}

/// Every segment of `s` begins at or after position `l` of the doubled line.
pub open spec fn begins_from<X>(s: Seq<(Segment, X)>, l: int) -> bool {
    forall|k: int| 0 <= k < s.len() ==> l <= (#[trigger] s[k]).0.lo()
}

pub(crate) proof fn lemma_sorted_join<X>(
    p: Seq<(Segment, X)>,
    q: Seq<(Segment, X)>,
    h: int,
    h2: int,
    l: int,
)
    requires
        sorted(p),
        sorted(q),
        ends_by(p, h),
        begins_from(q, h + 1),
        ends_by(q, h2),
        begins_from(p, l),
        l <= h + 1,
    ensures
        sorted(p + q),
        ends_by(p + q, if h < h2 { h2 } else { h }),
        begins_from(p + q, l),
{
    lemma_sorted_concat(p, q);
    let c = p + q;
    assert forall|k: int| 0 <= k < c.len() implies (k < p.len() && c[k] == p[k]) || (k >= p.len()
        && c[k] == q[k - p.len()]) by {}
}

pub(crate) proof fn lemma_sorted_join_last<X>(p: Seq<(Segment, X)>, q: Seq<(Segment, X)>, h: int)
    requires
        sorted(p),
        sorted(q),
        ends_by(p, h),
        begins_from(q, h + 1),
    ensures
        sorted(p + q),
{
    lemma_sorted_concat(p, q);
}

pub(crate) proof fn lemma_keep_all<X>(s: Seq<(Segment, X)>, p: spec_fn((Segment, X)) -> bool)
    requires
        forall|i: int| 0 <= i < s.len() ==> p(#[trigger] s[i]),
    ensures
        keep(s, p) == s,
    decreases s.len(),
{
    if s.len() > 0 {
        lemma_keep_all(s.drop_last(), p);
        assert(s.drop_last().push(s.last()) =~= s);
    }
}

pub(crate) proof fn lemma_keep_none<X>(s: Seq<(Segment, X)>, p: spec_fn((Segment, X)) -> bool)
    requires
        forall|i: int| 0 <= i < s.len() ==> !p(#[trigger] s[i]),
    ensures
        keep(s, p) == Seq::<(Segment, X)>::empty(),
    decreases s.len(),
{
    if s.len() > 0 {
        lemma_keep_none(s.drop_last(), p);
    }
}

pub(crate) proof fn lemma_keep_concat<X>(
    a: Seq<(Segment, X)>,
    b: Seq<(Segment, X)>,
    p: spec_fn((Segment, X)) -> bool,
)
    ensures
        keep(a + b, p) == keep(a, p) + keep(b, p),
    decreases b.len(),
{
    if b.len() == 0 {
        assert(a + b =~= a);
        assert(keep(a, p) + keep(b, p) =~= keep(a, p));
    } else {
        assert((a + b).drop_last() =~= a + b.drop_last());
        assert((a + b).last() == b.last());
        lemma_keep_concat(a, b.drop_last(), p);
        assert(keep(a + b, p) =~= keep(a, p) + keep(b, p));
    }
}

/// Content split around `t` into what lies before it, what touches it, and
/// what lies after it, is split so by `before`, `touched` and `after`.
pub(crate) proof fn lemma_parts<V>(
    a: Seq<(Segment, V)>,
    m: Seq<(Segment, V)>,
    d: Seq<(Segment, V)>,
    t: Segment,
)
    requires
        sorted(a + m + d),
        t.wf(),
        all_before(a, t),
        all_meet(m, t),
        all_after(d, t),
    ensures
        before(a + m + d, t) == a,
        touched(a + m + d, t) == m,
        after(a + m + d, t) == d,
{
    let c = a + m + d;
    assert forall|i: int| 0 <= i < a.len() implies (#[trigger] a[i]).0.wf() by {
        assert(c[i] == a[i]);
    }
    assert forall|i: int| 0 <= i < d.len() implies (#[trigger] d[i]).0.wf() by {
        assert(c[i + a.len() + m.len()] == d[i]);
    }
    assert forall|i: int| 0 <= i < a.len() implies !t.precedes((#[trigger] a[i]).0) by {
        a[i].0.lemma_order(t);
    }
    assert forall|i: int| 0 <= i < d.len() implies !(#[trigger] d[i]).0.precedes(t) by {
        d[i].0.lemma_order(t);
    }
    lemma_keep_all(a, lies_before(t));
    lemma_keep_none(m, lies_before::<V>(t));
    lemma_keep_none(d, lies_before::<V>(t));
    lemma_keep_none(a, meets::<V>(t));
    lemma_keep_all(m, meets(t));
    lemma_keep_none(d, meets::<V>(t));
    lemma_keep_none(a, lies_after::<V>(t));
    lemma_keep_none(m, lies_after::<V>(t));
    lemma_keep_all(d, lies_after(t));
    lemma_keep_concat(a + m, d, lies_before(t));
    lemma_keep_concat(a, m, lies_before(t));
    lemma_keep_concat(a + m, d, meets(t));
    lemma_keep_concat(a, m, meets(t));
    lemma_keep_concat(a + m, d, lies_after(t));
    lemma_keep_concat(a, m, lies_after(t));
    assert(before(c, t) =~= a);
    assert(touched(c, t) =~= m);
    assert(after(c, t) =~= d);
}

/// The slots from `cursor` on are in order, after `floor` and inside `t`.
pub(crate) proof fn lemma_slots_bounds<V>(m: Seq<(Segment, V)>, cursor: i64, t: Segment, floor: int)
    requires
        sorted(m),
        all_meet(m, t),
        t.wf(),
        t.start <= cursor <= t.end,
        2 * cursor - 1 <= floor <= 2 * cursor,
        m.len() > 0 ==> cursor <= m[0].0.end,
        m.len() > 0 ==> cursor <= m[0].0.start || cursor == t.start,
        m.len() > 0 ==> floor < middle(m[0].0, cursor, t).lo(),
    ensures
        sorted(slots_from(m, cursor, t)),
        begins_from(slots_from(m, cursor, t), floor + 1),
        ends_by(slots_from(m, cursor, t), t.hi()),
    decreases m.len(),
{
    let s = slots_from(m, cursor, t);
    if m.len() == 0 {
    } else {
        let e = m[0].0;
        let mid = middle(e, cursor, t);
        e.lemma_order(t);
        assert(mid.wf());
        assert(mid.hi() <= e.hi());
        assert(mid.hi() <= t.hi());
        let gap: Seq<(Segment, Option<V>)> = if cursor < mid.start {
            seq![(Segment { start: cursor, end: mid.start }, None)]
        } else {
            seq![]
        };
        let rest = m.drop_first();
        assert forall|i: int| 0 <= i < rest.len() implies (#[trigger] rest[i]) == m[i + 1] by {}
        assert forall|i: int, j: int| 0 <= i < j < rest.len() implies (#[trigger] rest[i]).0.precedes(
            (#[trigger] rest[j]).0,
        ) by {
            assert(rest[i] == m[i + 1] && rest[j] == m[j + 1]);
        }
        assert(sorted(rest));
        assert(all_meet(rest, t));
        if rest.len() > 0 {
            let e1 = rest[0].0;
            assert(e.precedes(e1));
            e.lemma_order(e1);
            e1.lemma_order(t);
            assert(mid.end <= e1.end);
            assert(mid.hi() < middle(e1, mid.end, t).lo());
        }
        lemma_slots_bounds(rest, mid.end, t, mid.hi());
        let tail = slots_from(rest, mid.end, t);
        let here = seq![(mid, Some(m[0].1))];
        lemma_sorted_join(here, tail, mid.hi(), t.hi(), floor + 1);
        if cursor < mid.start {
            lemma_sorted_join(gap, here + tail, 2 * mid.start - 1, t.hi(), floor + 1);
        }
        assert(s == gap + (here + tail));
    }
}

/// The entries that come out of ordered slots keep their order and bounds.
pub(crate) proof fn lemma_emitted_bounds<V>(
    s: Seq<(Segment, Option<V>)>,
    outs: Seq<Option<V>>,
    l: int,
    h: int,
)
    requires
        sorted(s),
        begins_from(s, l),
        ends_by(s, h),
    ensures
        sorted(emitted(s, outs)),
        begins_from(emitted(s, outs), l),
        ends_by(emitted(s, outs), h),
    decreases s.len(),
{
    if s.len() > 0 && outs.len() > 0 {
        let init = s.drop_last();
        let x = s.last();
        assert forall|i: int| 0 <= i < init.len() implies (#[trigger] init[i]) == s[i] by {}
        assert(sorted(init));
        assert forall|i: int| 0 <= i < init.len() implies (#[trigger] init[i]).0.hi() <= x.0.lo() - 1 by {
            assert(s[i].0.precedes(x.0));
        }
        x.0.lemma_order(x.0);
        lemma_emitted_bounds(init, outs.drop_last(), l, x.0.lo() - 1);
        let rest = emitted(init, outs.drop_last());
        if let Some(v) = outs.last() {
            let one = seq![(x.0, v)];
            lemma_sorted_join(rest, one, x.0.lo() - 1, h, l);
            assert(rest.push((x.0, v)) == rest + one);
        } else {
            assert forall|k: int| 0 <= k < rest.len() implies (#[trigger] rest[k]).0.hi() <= h by {}
        }
    }
}

/// Whatever a rewrite of `t` puts in place of the touched entries `m`, the
/// content stays in order.
pub(crate) proof fn lemma_rewrite_sorted<V>(
    a: Seq<(Segment, V)>,
    m: Seq<(Segment, V)>,
    d: Seq<(Segment, V)>,
    t: Segment,
    outs: Seq<Option<V>>,
)
    requires
        sorted(a + m + d),
        t.wf(),
        all_before(a, t),
        all_meet(m, t),
        all_after(d, t),
    ensures
        sorted(a + left_rest(m, t) + emitted(slots(m, t), outs) + right_rest(m, t) + d),
        sorted(a + left_rest(m, t) + right_rest(m, t) + d),
{
    let c = a + m + d;
    lemma_sorted_parts(a + m, d);
    lemma_sorted_parts(a, m);
    let lr = left_rest(m, t);
    let rr = right_rest(m, t);
    let sl = slots(m, t);
    let em = emitted(sl, outs);
    t.lemma_order(t);
    // bounds of the pieces
    let lo_a = if m.len() > 0 && m[0].0.lo() < t.lo() { m[0].0.lo() } else { t.lo() };
    let hi_d = if m.len() > 0 && m.last().0.hi() > t.hi() { m.last().0.hi() } else { t.hi() };
    assert forall|i: int| 0 <= i < a.len() implies (#[trigger] a[i]).0.hi() <= lo_a - 1 by {
        if m.len() > 0 {
            assert(a[i].0.precedes(m[0].0));
        }
    }
    assert forall|i: int| 0 <= i < d.len() implies hi_d + 1 <= (#[trigger] d[i]).0.lo() by {
        if m.len() > 0 {
            assert((a + m)[a.len() + m.len() - 1] == m[m.len() - 1]);
            assert(m[m.len() - 1].0.precedes(d[i].0));
        }
    }
    let lo0 = if a.len() > 0 { a[0].0.lo() } else { lo_a };
    if a.len() > 0 {
        a[0].0.lemma_order(a[0].0);
        assert forall|i: int| 0 <= i < a.len() implies lo0 <= (#[trigger] a[i]).0.lo() by {
            if i > 0 {
                assert(a[0].0.precedes(a[i].0));
                a[i].0.lemma_order(a[i].0);
            }
        }
    }
    if m.len() > 0 {
        m[0].0.lemma_order(t);
        m.last().0.lemma_order(t);
        assert(m.last() == m[m.len() - 1]);
        lemma_slots_bounds(m, t.start, t, t.lo() - 1);
    } else {
        assert(sl == seq![(t, Option::<V>::None)]);
    }
    lemma_emitted_bounds(sl, outs, t.lo(), t.hi());
    assert(sorted(lr));
    assert(sorted(rr));
    lemma_sorted_join(a, lr, lo_a - 1, 2 * t.start - 1, lo0);
    let h1 = if lo_a - 1 < 2 * t.start - 1 { 2 * t.start - 1 } else { lo_a - 1 };
    assert(h1 <= t.lo() - 1);
    lemma_sorted_join(a + lr, em, t.lo() - 1, t.hi(), lo0);
    lemma_sorted_join(a + lr + em, rr, t.hi(), hi_d, lo0);
    lemma_sorted_join_last(a + lr + em + rr, d, hi_d);
    lemma_sorted_join(a + lr, rr, t.hi(), hi_d, lo0);
    lemma_sorted_join_last(a + lr + rr, d, hi_d);
}

pub(crate) proof fn lemma_spliced_eq<V>(
    a: Seq<(Segment, V)>,
    m: Seq<(Segment, V)>,
    d: Seq<(Segment, V)>,
    t: Segment,
    outs: Seq<Option<V>>,
)
    requires
        before(a + m + d, t) == a,
        touched(a + m + d, t) == m,
        after(a + m + d, t) == d,
    ensures
        spliced(a + m + d, t, outs) == a + left_rest(m, t) + emitted(slots(m, t), outs)
            + right_rest(m, t) + d,
        removed(a + m + d, t) == a + left_rest(m, t) + right_rest(m, t) + d,
{
}

pub(crate) proof fn lemma_regroup<X>(a: Seq<X>, l: Seq<X>, e: Seq<X>, r: Seq<X>, d: Seq<X>)
    ensures
        a + l + e + r + d == a + (l + e + r) + d,
        a + l + r + d == a + (l + r) + d,
{
    assert(a + l + e + r + d =~= a + (l + e + r) + d);
    assert(a + l + r + d =~= a + (l + r) + d);
}

/// Rewriting or removing `t` in content split around it.
pub(crate) proof fn lemma_splice_parts<V>(
    a: Seq<(Segment, V)>,
    m: Seq<(Segment, V)>,
    d: Seq<(Segment, V)>,
    t: Segment,
    outs: Seq<Option<V>>,
)
    requires
        sorted(a + m + d),
        t.wf(),
        all_before(a, t),
        all_meet(m, t),
        all_after(d, t),
    ensures
        touched(a + m + d, t) == m,
        spliced(a + m + d, t, outs) == a + (left_rest(m, t) + emitted(slots(m, t), outs)
            + right_rest(m, t)) + d,
        removed(a + m + d, t) == a + (left_rest(m, t) + right_rest(m, t)) + d,
        sorted(spliced(a + m + d, t, outs)),
        sorted(removed(a + m + d, t)),
{
    lemma_regroup(a, left_rest(m, t), emitted(slots(m, t), outs), right_rest(m, t), d);
    lemma_parts(a, m, d, t);
    lemma_spliced_eq(a, m, d, t, outs);
    lemma_rewrite_sorted(a, m, d, t, outs);
}

} // verus!
