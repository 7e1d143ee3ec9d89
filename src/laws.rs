//! What holds of the map across its operations, proved over the model.
use vstd::prelude::*;

use crate::content::{
    after, all_after, all_before, all_meet, before, clashes, emitted, inserted, inserted_all,
    left_rest, lemma_inserted_elems, lemma_inserted_sorted, lemma_parts, middle, removed,
    right_rest, slots, slots_from, sorted, spliced, touched,
};
use crate::map::SegmentMap;
use crate::segment::Segment;

verus! {

/// `sorted`, kept out of sight of the solver until it is revealed.
#[verifier::opaque]
spec fn chained<V>(c: Seq<(Segment, V)>) -> bool {
    sorted(c)
}

proof fn lemma_chained_init<V>(c: Seq<(Segment, V)>)
    requires
        chained(c),
        c.len() > 0,
    ensures
        chained(c.drop_last()),
        c.last().0.wf(),
        forall|i: int| 0 <= i < c.len() - 1 ==> (#[trigger] c.drop_last()[i]).0.precedes(c.last().0),
        forall|i: int| 0 <= i < c.len() - 1 ==> (#[trigger] c.drop_last()[i]).0.wf(),
{
    reveal(chained);
    let init = c.drop_last();
    assert(c.last() == c[c.len() - 1]);
    assert forall|i: int, j: int| 0 <= i < j < init.len() implies (#[trigger] init[i]).0.precedes(
        (#[trigger] init[j]).0,
    ) by {
        assert(init[i] == c[i] && init[j] == c[j]);
    }
    assert forall|i: int| 0 <= i < init.len() implies (#[trigger] init[i]).0.wf() by {
        assert(init[i] == c[i]);
    }
    assert forall|i: int| 0 <= i < c.len() - 1 implies (#[trigger] init[i]).0.precedes(c.last().0) by {
        assert(init[i] == c[i]);
    }
}

/// Ordered content splits into entries before `t`, entries touching it, and
/// entries after it.
proof fn lemma_split_exists<V>(c: Seq<(Segment, V)>, t: Segment) -> (r: (
    Seq<(Segment, V)>,
    Seq<(Segment, V)>,
    Seq<(Segment, V)>,
))
    requires
        chained(c),
        t.wf(),
    ensures
        c == r.0 + r.1 + r.2,
        all_before(r.0, t),
        all_meet(r.1, t),
        all_after(r.2, t),
    decreases c.len(),
{
    if c.len() == 0 {
        (c, c, c)
    } else {
        let init = c.drop_last();
        let x = c.last();
        lemma_chained_init(c);
        let (a, m, d) = lemma_split_exists(init, t);
        x.0.lemma_order(t);
        t.lemma_order(x.0);
        assert(c =~= init.push(x));
        if t.precedes(x.0) {
            assert(c =~= a + m + d.push(x));
            assert forall|i: int| 0 <= i < d.len() + 1 implies t.precedes((#[trigger] d.push(x)[i]).0) by {
                if i < d.len() {
                    assert(d.push(x)[i] == d[i]);
                }
            }
            (a, m, d.push(x))
        } else {
            if d.len() > 0 {
                let k = (a.len() + m.len()) as int;
                assert(init[k] == d[0]);
                assert(init[k].0.wf());
                assert(init[k].0.precedes(x.0));
                Segment::lemma_trans(t, d[0].0, x.0);
            }
            if x.0.overlaps(t) {
                assert(c =~= a + m.push(x) + d);
                assert forall|i: int| 0 <= i < m.len() + 1 implies (#[trigger] m.push(x)[i]).0.overlaps(t) by {
                    if i < m.len() {
                        assert(m.push(x)[i] == m[i]);
                    }
                }
                (a, m.push(x), d)
            } else {
                if m.len() > 0 {
                    let k = a.len() as int;
                    assert(init[k] == m[0]);
                    assert(init[k].0.precedes(x.0));
                    Segment::lemma_trans(m[0].0, x.0, t);
                }
                assert(c =~= a.push(x) + m + d);
                assert forall|i: int| 0 <= i < a.len() + 1 implies (#[trigger] a.push(x)[i]).0.precedes(t) by {
                    if i < a.len() {
                        assert(a.push(x)[i] == a[i]);
                    }
                }
                (a.push(x), m, d)
            }
        }
    }
}

proof fn lemma_parts_chained<V>(
    a: Seq<(Segment, V)>,
    m: Seq<(Segment, V)>,
    d: Seq<(Segment, V)>,
    t: Segment,
)
    requires
        chained(a + m + d),
        t.wf(),
        all_before(a, t),
        all_meet(m, t),
        all_after(d, t),
    ensures
        before(a + m + d, t) == a,
        touched(a + m + d, t) == m,
        after(a + m + d, t) == d,
{
    reveal(chained);
    lemma_parts(a, m, d, t);
}

/// Stored segments never overlap one another.
pub proof fn lemma_stored_disjoint<V>(m: &SegmentMap<V>)
    requires
        m.wf(),
    ensures
        forall|i: int, j: int|
            0 <= i < m@.len() && 0 <= j < m@.len() && i != j ==> !(#[trigger] m@[i]).0.overlaps(
                (#[trigger] m@[j]).0,
            ),
{
    assert forall|i: int, j: int|
        0 <= i < m@.len() && 0 <= j < m@.len() && i != j implies !(#[trigger] m@[i]).0.overlaps(
        (#[trigger] m@[j]).0,
    ) by {
        if i < j {
            assert(m@[i].0.precedes(m@[j].0));
        } else {
            assert(m@[j].0.precedes(m@[i].0));
        }
    }
}

/// A walk yields segments by non-decreasing start: each ends at or before
/// the start of every later one, so a point marker comes after a segment that
/// ends at its point and before one that starts there, and two markers never
/// share a point.
pub proof fn lemma_walk_order<V>(m: &SegmentMap<V>)
    requires
        m.wf(),
    ensures
        forall|i: int, j: int|
            0 <= i < j < m@.len() ==> (#[trigger] m@[i]).0.start <= (#[trigger] m@[j]).0.start
                && m@[i].0.end <= m@[j].0.start,
        forall|i: int, j: int|
            0 <= i < j < m@.len() && (#[trigger] m@[i]).0.is_marker()
                && (#[trigger] m@[j]).0.is_marker() ==> m@[i].0.start < m@[j].0.start,
{
    assert forall|i: int, j: int| 0 <= i < j < m@.len() implies (#[trigger] m@[i]).0.start <= (
    #[trigger] m@[j]).0.start && m@[i].0.end <= m@[j].0.start by {
        m@[i].0.lemma_order(m@[j].0);
    }
    assert forall|i: int, j: int|
        0 <= i < j < m@.len() && (#[trigger] m@[i]).0.is_marker()
            && (#[trigger] m@[j]).0.is_marker() implies m@[i].0.start < m@[j].0.start by {
        m@[i].0.lemma_order(m@[j].0);
    }
}

proof fn lemma_emitted_none<V>(s: Seq<(Segment, Option<V>)>, outs: Seq<Option<V>>)
    requires
        forall|k: int| 0 <= k < outs.len() ==> (#[trigger] outs[k]) is None,
    ensures
        emitted(s, outs) == Seq::<(Segment, V)>::empty(),
    decreases s.len(),
{
    if s.len() > 0 && outs.len() > 0 {
        let o = outs.drop_last();
        assert forall|k: int| 0 <= k < o.len() implies (#[trigger] o[k]) is None by {
            assert(o[k] == outs[k]);
        }
        lemma_emitted_none(s.drop_last(), o);
        assert(outs.last() == outs[outs.len() - 1]);
    }
}

/// Removing `t` gives the content that rewriting `t` gives where every slot
/// comes out empty.
pub proof fn lemma_remove_is_update_to_nothing<V>(
    c: Seq<(Segment, V)>,
    t: Segment,
    outs: Seq<Option<V>>,
)
    requires
        forall|k: int| 0 <= k < outs.len() ==> (#[trigger] outs[k]) is None,
    ensures
        spliced(c, t, outs) == removed(c, t),
{
    let m = touched(c, t);
    lemma_emitted_none(slots(m, t), outs);
    assert(spliced(c, t, outs) =~= removed(c, t));
}

proof fn lemma_drop_empty<X>(b: Seq<X>, e1: Seq<X>, e2: Seq<X>, e3: Seq<X>, a: Seq<X>)
    requires
        e1.len() == 0,
        e2.len() == 0,
        e3.len() == 0,
    ensures
        b + e1 + e2 + a == b + e3 + a,
{
    assert(b + e1 + e2 + a =~= b + e3 + a);
}

/// Removing a zero-width segment at `k` changes nothing where no stored
/// segment overlaps it: segments that end or start at `k` stay whole.
pub proof fn lemma_remove_point_untouched<V>(c: Seq<(Segment, V)>, k: i64)
    requires
        sorted(c),
        !clashes(c, Segment { start: k, end: k }),
    ensures
        removed(c, Segment { start: k, end: k }) == c,
{
    let t = Segment { start: k, end: k };
    assert(chained(c)) by {
        reveal(chained);
    }
    lemma_remove_point_chained(c, t);
}

proof fn lemma_remove_point_chained<V>(c: Seq<(Segment, V)>, t: Segment)
    requires
        chained(c),
        t.wf(),
        !clashes(c, t),
    ensures
        removed(c, t) == c,
{
    let (a, m, d) = lemma_split_exists(c, t);
    lemma_parts_chained(a, m, d, t);
    lemma_none_touch(a, m, d, t);
    lemma_removed_untouched(c, t);
}

proof fn lemma_none_touch<V>(
    a: Seq<(Segment, V)>,
    m: Seq<(Segment, V)>,
    d: Seq<(Segment, V)>,
    t: Segment,
)
    requires
        !clashes(a + m + d, t),
        all_meet(m, t),
    ensures
        m.len() == 0,
{
    if m.len() > 0 {
        let k = a.len() as int;
        assert((a + m + d)[k] == m[0]);
        assert(m[0].0.overlaps(t));
    }
}

proof fn lemma_removed_untouched<V>(c: Seq<(Segment, V)>, t: Segment)
    requires
        touched(c, t).len() == 0,
        c == before(c, t) + touched(c, t) + after(c, t),
    ensures
        removed(c, t) == c,
{
    let m = touched(c, t);
    lemma_drop_empty(before(c, t), left_rest(m, t), right_rest(m, t), m, after(c, t));
}

proof fn lemma_emitted_concat<V>(
    s1: Seq<(Segment, Option<V>)>,
    s2: Seq<(Segment, Option<V>)>,
    o1: Seq<Option<V>>,
    o2: Seq<Option<V>>,
)
    requires
        o1.len() == s1.len(),
        o2.len() == s2.len(),
    ensures
        emitted(s1 + s2, o1 + o2) == emitted(s1, o1) + emitted(s2, o2),
    decreases s2.len(),
{
    if s2.len() == 0 {
        assert(s1 + s2 =~= s1);
        assert(o1 + o2 =~= o1);
        assert(emitted(s1, o1) + emitted(s2, o2) =~= emitted(s1, o1));
    } else {
        assert((s1 + s2).drop_last() =~= s1 + s2.drop_last());
        assert((o1 + o2).drop_last() =~= o1 + o2.drop_last());
        lemma_emitted_concat(s1, s2.drop_last(), o1, o2.drop_last());
        assert((s1 + s2).last() == s2.last());
        assert((o1 + o2).last() == o2.last());
        if s1.len() + s2.len() > 0 && o1.len() + o2.len() > 0 {
            match o2.last() {
                Some(v) => {
                    assert(emitted(s1 + s2, o1 + o2) =~= emitted(s1, o1) + emitted(s2, o2));
                },
                None => {},
            }
        }
    }
}

/// Entries that lie inside `t`, one after another.
spec fn inside_in_order<V>(m: Seq<(Segment, V)>, t: Segment) -> bool {
    &&& forall|i: int|
        0 <= i < m.len() ==> t.start <= (#[trigger] m[i]).0.start && m[i].0.end <= t.end
            && m[i].0.wf()
    &&& forall|i: int| 0 <= i < m.len() - 1 ==> (#[trigger] m[i]).0.end <= m[i + 1].0.start
}

/// Offering each slot its own prior value gives back the entries inside `t`.
proof fn lemma_identity_slots<V>(
    m: Seq<(Segment, V)>,
    cursor: i64,
    t: Segment,
    outs: Seq<Option<V>>,
)
    requires
        inside_in_order(m, t),
        m.len() > 0 ==> cursor <= m[0].0.start,
        outs.len() == slots_from(m, cursor, t).len(),
        forall|k: int| 0 <= k < outs.len() ==> #[trigger] outs[k] == slots_from(m, cursor, t)[k].1,
    ensures
        emitted(slots_from(m, cursor, t), outs) == m,
    decreases m.len(),
{
    let s = slots_from(m, cursor, t);
    if m.len() == 0 {
        if cursor < t.end {
            assert(outs[0] == s[0].1);
            assert(emitted(s, outs) == emitted(s.drop_last(), outs.drop_last()));
        }
    } else {
        let e = m[0];
        let mid = middle(e.0, cursor, t);
        assert(mid == e.0);
        let gap: Seq<(Segment, Option<V>)> = if cursor < mid.start {
            seq![(Segment { start: cursor, end: mid.start }, None)]
        } else {
            seq![]
        };
        let here = seq![(mid, Some(e.1))];
        let rest = m.drop_first();
        let rs = slots_from(rest, mid.end, t);
        assert(s == gap + here + rs);
        let g = gap.len() as int;
        let og = outs.subrange(0, g);
        let oh = outs.subrange(g, g + 1);
        let orr = outs.subrange(g + 1, outs.len() as int);
        assert(outs =~= og + oh + orr);
        assert forall|i: int| 0 <= i < rest.len() implies rest[i] == m[i + 1] by {}
        assert(inside_in_order(rest, t)) by {
            assert forall|i: int| 0 <= i < rest.len() - 1 implies (#[trigger] rest[i]).0.end <= rest[i + 1].0.start by {
                assert(m[i + 1].0.end <= m[i + 2].0.start);
            }
        }
        if rest.len() > 0 {
            assert(m[0].0.end <= m[1].0.start);
        }
        assert forall|k: int| 0 <= k < orr.len() implies #[trigger] orr[k] == rs[k].1 by {
            assert(orr[k] == outs[k + g + 1]);
            assert(s[k + g + 1] == rs[k]);
        }
        lemma_identity_slots(rest, mid.end, t, orr);
        lemma_emitted_concat(gap + here, rs, og + oh, orr);
        lemma_emitted_concat(gap, here, og, oh);
        assert(oh[0] == outs[g]);
        assert(s[g] == here[0]);
        assert(emitted(here, oh) == emitted(here.drop_last(), oh.drop_last()).push((mid, e.1)));
        assert(emitted(here, oh) =~= seq![e]);
        if cursor < mid.start {
            assert(og[0] == outs[0]);
            assert(s[0] == gap[0]);
            assert(emitted(gap, og) == emitted(gap.drop_last(), og.drop_last()));
        }
        assert(emitted(gap, og) =~= seq![]);
        assert(m =~= seq![e] + rest);
    }
}

/// No segment of `c` reaches across a boundary of `t`.
pub open spec fn no_straddle<V>(c: Seq<(Segment, V)>, t: Segment) -> bool {
    forall|i: int|
        0 <= i < c.len() ==> !((#[trigger] c[i]).0.start < t.start < c[i].0.end) && !(c[i].0.start
            < t.end < c[i].0.end)
}

proof fn lemma_inside<V>(
    a: Seq<(Segment, V)>,
    m: Seq<(Segment, V)>,
    d: Seq<(Segment, V)>,
    t: Segment,
)
    requires
        chained(a + m + d),
        no_straddle(a + m + d, t),
        all_meet(m, t),
        t.wf(),
    ensures
        inside_in_order(m, t),
{
    reveal(chained);
    let c = a + m + d;
    assert forall|i: int| 0 <= i < m.len() implies t.start <= (#[trigger] m[i]).0.start
        && m[i].0.end <= t.end && m[i].0.wf() by {
        assert(c[a.len() + i] == m[i]);
        m[i].0.lemma_order(t);
    }
    assert forall|i: int| 0 <= i < m.len() - 1 implies (#[trigger] m[i]).0.end <= m[i + 1].0.start by {
        assert(c[a.len() + i] == m[i]);
        assert(c[a.len() + i + 1] == m[i + 1]);
        m[i].0.lemma_order(m[i + 1].0);
    }
}

proof fn lemma_drop_rests<X>(a: Seq<X>, l: Seq<X>, e: Seq<X>, r: Seq<X>, d: Seq<X>)
    requires
        l.len() == 0,
        r.len() == 0,
    ensures
        a + l + e + r + d == a + e + d,
{
    assert(a + l + e + r + d =~= a + e + d);
}

/// Rewriting `t` with a function that hands each slot back its prior value
/// leaves the content as it was, wherever no stored segment reaches across
/// a boundary of `t`. (One that does is cut there.)
pub proof fn lemma_identity_update_keeps_content<V>(
    c: Seq<(Segment, V)>,
    t: Segment,
    outs: Seq<Option<V>>,
)
    requires
        sorted(c),
        t.wf(),
        no_straddle(c, t),
        outs.len() == slots(touched(c, t), t).len(),
        forall|k: int| 0 <= k < outs.len() ==> #[trigger] outs[k] == slots(touched(c, t), t)[k].1,
    ensures
        spliced(c, t, outs) == c,
{
    assert(chained(c)) by {
        reveal(chained);
    }
    lemma_identity_chained(c, t, outs);
}

proof fn lemma_identity_chained<V>(c: Seq<(Segment, V)>, t: Segment, outs: Seq<Option<V>>)
    requires
        chained(c),
        t.wf(),
        no_straddle(c, t),
        outs.len() == slots(touched(c, t), t).len(),
        forall|k: int| 0 <= k < outs.len() ==> #[trigger] outs[k] == slots(touched(c, t), t)[k].1,
    ensures
        spliced(c, t, outs) == c,
{
    let (a, m, d) = lemma_split_exists(c, t);
    lemma_parts_chained(a, m, d, t);
    lemma_inside(a, m, d, t);
    lemma_identity_middle(m, t, outs);
    crate::content::lemma_spliced_eq(a, m, d, t, outs);
    lemma_drop_rests(a, left_rest(m, t), emitted(slots(m, t), outs), right_rest(m, t), d);
}

proof fn lemma_identity_middle<V>(m: Seq<(Segment, V)>, t: Segment, outs: Seq<Option<V>>)
    requires
        inside_in_order(m, t),
        outs.len() == slots(m, t).len(),
        forall|k: int| 0 <= k < outs.len() ==> #[trigger] outs[k] == slots(m, t)[k].1,
    ensures
        emitted(slots(m, t), outs) == m,
        left_rest(m, t).len() == 0,
        right_rest(m, t).len() == 0,
{
    if m.len() == 0 {
        let s = slots(m, t);
        assert(outs[0] == s[0].1);
        assert(emitted(s, outs) == emitted(s.drop_last(), outs.drop_last()));
    } else {
        assert(m.last() == m[m.len() - 1]);
        lemma_identity_slots(m, t.start, t, outs);
    }
}

/// Well-formed entries whose segments pairwise do not overlap.
pub open spec fn disjoint_entries<V>(xs: Seq<(Segment, V)>) -> bool {
    &&& forall|i: int| 0 <= i < xs.len() ==> (#[trigger] xs[i]).0.wf()
    &&& forall|i: int, j: int|
        0 <= i < xs.len() && 0 <= j < xs.len() && i != j ==> !(#[trigger] xs[i]).0.overlaps(
            (#[trigger] xs[j]).0,
        )
}

/// Two ordered sequences with the same entries are the same sequence.
proof fn lemma_sorted_unique<V>(a: Seq<(Segment, V)>, b: Seq<(Segment, V)>)
    requires
        sorted(a),
        sorted(b),
        forall|z: (Segment, V)| a.contains(z) <==> b.contains(z),
    ensures
        a == b,
    decreases a.len(),
{
    if a.len() == 0 {
        if b.len() > 0 {
            assert(b.contains(b[0]));
        }
        assert(a =~= b);
    } else {
        assert(a.contains(a[0]));
        assert(b.len() > 0);
        assert(b.contains(b[0]));
        let j = choose|j: int| 0 <= j < b.len() && b[j] == a[0];
        let i = choose|i: int| 0 <= i < a.len() && a[i] == b[0];
        a[0].0.lemma_order(b[0].0);
        b[0].0.lemma_order(a[0].0);
        if j > 0 {
            assert(b[0].0.precedes(a[0].0));
            if i > 0 {
                assert(a[0].0.precedes(b[0].0));
            }
        }
        assert(a[0] == b[0]);
        let a1 = a.drop_first();
        let b1 = b.drop_first();
        assert(sorted(a1)) by {
            assert forall|x: int, y: int| 0 <= x < y < a1.len() implies (#[trigger] a1[x]).0.precedes(
                (#[trigger] a1[y]).0,
            ) by {
                assert(a[x + 1] == a1[x] && a[y + 1] == a1[y]);
            }
            assert forall|x: int| 0 <= x < a1.len() implies (#[trigger] a1[x]).0.wf() by {
                assert(a[x + 1] == a1[x]);
            }
        }
        assert(sorted(b1)) by {
            assert forall|x: int, y: int| 0 <= x < y < b1.len() implies (#[trigger] b1[x]).0.precedes(
                (#[trigger] b1[y]).0,
            ) by {
                assert(b[x + 1] == b1[x] && b[y + 1] == b1[y]);
            }
            assert forall|x: int| 0 <= x < b1.len() implies (#[trigger] b1[x]).0.wf() by {
                assert(b[x + 1] == b1[x]);
            }
        }
        assert forall|z: (Segment, V)| a1.contains(z) <==> b1.contains(z) by {
            if a1.contains(z) {
                let k = choose|k: int| 0 <= k < a1.len() && a1[k] == z;
                assert(a[k + 1] == z);
                assert(a[0].0.precedes(a[k + 1].0));
                z.0.lemma_order(z.0);
                assert(b.contains(z));
                let l = choose|l: int| 0 <= l < b.len() && b[l] == z;
                assert(l != 0);
                assert(b1[l - 1] == z);
            }
            if b1.contains(z) {
                let k = choose|k: int| 0 <= k < b1.len() && b1[k] == z;
                assert(b[k + 1] == z);
                assert(b[0].0.precedes(b[k + 1].0));
                z.0.lemma_order(z.0);
                assert(a.contains(z));
                let l = choose|l: int| 0 <= l < a.len() && a[l] == z;
                assert(l != 0);
                assert(a1[l - 1] == z);
            }
        }
        lemma_sorted_unique(a1, b1);
        assert(a =~= seq![a[0]] + a1);
        assert(b =~= seq![b[0]] + b1);
    }
}

/// Inserting disjoint entries that clash with nothing in `c` keeps `c` in
/// order and holds exactly the entries of `c` and of `xs`.
proof fn lemma_inserted_all_content<V>(c: Seq<(Segment, V)>, xs: Seq<(Segment, V)>)
    requires
        sorted(c),
        disjoint_entries(xs),
        forall|i: int| 0 <= i < xs.len() ==> !clashes(c, (#[trigger] xs[i]).0),
    ensures
        sorted(inserted_all(c, xs)),
        forall|z: (Segment, V)|
            inserted_all(c, xs).contains(z) <==> (c.contains(z) || xs.contains(z)),
    decreases xs.len(),
{
    if xs.len() > 0 {
        let x = xs[0];
        let rest = xs.drop_first();
        let c1 = inserted(c, x);
        assert(!clashes(c, x.0));
        lemma_inserted_sorted(c, x);
        lemma_inserted_elems(c, x);
        assert(disjoint_entries(rest)) by {
            assert forall|i: int| 0 <= i < rest.len() implies (#[trigger] rest[i]).0.wf() by {
                assert(rest[i] == xs[i + 1]);
            }
            assert forall|i: int, j: int|
                0 <= i < rest.len() && 0 <= j < rest.len() && i != j implies !(#[trigger] rest[i]).0.overlaps(
                (#[trigger] rest[j]).0,
            ) by {
                assert(rest[i] == xs[i + 1] && rest[j] == xs[j + 1]);
            }
        }
        assert forall|i: int| 0 <= i < rest.len() implies !clashes(c1, (#[trigger] rest[i]).0) by {
            assert(rest[i] == xs[i + 1]);
            if clashes(c1, rest[i].0) {
                let k = choose|k: int| 0 <= k < c1.len() && (#[trigger] c1[k]).0.overlaps(rest[i].0);
                if c1[k] == x {
                    assert(!xs[0].0.overlaps(xs[i + 1].0));
                } else {
                    let l = choose|l: int| 0 <= l < c.len() && c[l] == c1[k];
                    assert(!clashes(c, xs[i + 1].0));
                    assert(c[l].0.overlaps(xs[i + 1].0));
                }
            }
        }
        lemma_inserted_all_content(c1, rest);
        assert forall|z: (Segment, V)|
            inserted_all(c, xs).contains(z) <==> (c.contains(z) || xs.contains(z)) by {
            if xs.contains(z) {
                let k = choose|k: int| 0 <= k < xs.len() && xs[k] == z;
                if k > 0 {
                    assert(rest[k - 1] == z);
                }
            }
            if rest.contains(z) {
                let k = choose|k: int| 0 <= k < rest.len() && rest[k] == z;
                assert(xs[k + 1] == z);
            }
            if c.contains(z) {
                let k = choose|k: int| 0 <= k < c.len() && c[k] == z;
                assert(c1.contains(c[k]));
            }
            if c1.contains(z) {
                let k = choose|k: int| 0 <= k < c1.len() && c1[k] == z;
                assert(c1[k] == x || c.contains(c1[k]));
            }
            assert(xs.contains(x)) by {
                assert(xs[0] == x);
            }
        }
    }
}

/// Inserting pairwise non-overlapping entries one after another into an
/// empty map never meets a clash.
proof fn lemma_insertions_succeed<V>(xs: Seq<(Segment, V)>)
    requires
        disjoint_entries(xs),
    ensures
        forall|k: int|
            0 <= k < xs.len() ==> !clashes(
                inserted_all(seq![], xs.take(k)),
                (#[trigger] xs[k]).0,
            ),
{
    let e = Seq::<(Segment, V)>::empty();
    assert(e =~= seq![]);
    assert forall|k: int| 0 <= k < xs.len() implies !clashes(
        inserted_all(e, xs.take(k)),
        (#[trigger] xs[k]).0,
    ) by {
        let p = xs.take(k);
        assert(disjoint_entries(p)) by {
            assert forall|i: int, j: int|
                0 <= i < p.len() && 0 <= j < p.len() && i != j implies !(#[trigger] p[i]).0.overlaps(
                (#[trigger] p[j]).0,
            ) by {
                assert(p[i] == xs[i] && p[j] == xs[j]);
            }
        }
        assert forall|i: int| 0 <= i < p.len() implies !clashes(e, (#[trigger] p[i]).0) by {}
        lemma_inserted_all_content(e, p);
        let r = inserted_all(e, p);
        if clashes(r, xs[k].0) {
            let i = choose|i: int| 0 <= i < r.len() && (#[trigger] r[i]).0.overlaps(xs[k].0);
            assert(r.contains(r[i]));
            assert(p.contains(r[i]));
            let j = choose|j: int| 0 <= j < p.len() && p[j] == r[i];
            assert(p[j] == xs[j]);
        }
    }
}

/// Inserting the same pairwise non-overlapping entries in any order gives
/// the same content, and no insertion on the way meets a clash.
pub proof fn lemma_insertion_order_irrelevant<V>(xs: Seq<(Segment, V)>, ys: Seq<(Segment, V)>)
    requires
        disjoint_entries(xs),
        disjoint_entries(ys),
        xs.to_multiset() == ys.to_multiset(),
    ensures
        inserted_all(seq![], xs) == inserted_all(seq![], ys),
        forall|k: int|
            0 <= k < xs.len() ==> !clashes(
                inserted_all(seq![], xs.take(k)),
                (#[trigger] xs[k]).0,
            ),
        forall|k: int|
            0 <= k < ys.len() ==> !clashes(
                inserted_all(seq![], ys.take(k)),
                (#[trigger] ys[k]).0,
            ),
{
    lemma_insertions_succeed(xs);
    lemma_insertions_succeed(ys);
    broadcast use vstd::seq_lib::group_to_multiset_ensures;

    let e = Seq::<(Segment, V)>::empty();
    assert forall|i: int| 0 <= i < xs.len() implies !clashes(e, (#[trigger] xs[i]).0) by {}
    assert forall|i: int| 0 <= i < ys.len() implies !clashes(e, (#[trigger] ys[i]).0) by {}
    lemma_inserted_all_content(e, xs);
    lemma_inserted_all_content(e, ys);
    assert forall|z: (Segment, V)| xs.contains(z) <==> ys.contains(z) by {
        assert(xs.contains(z) <==> xs.to_multiset().count(z) > 0);
        assert(ys.contains(z) <==> ys.to_multiset().count(z) > 0);
    }
    assert(e =~= seq![]);
    assert forall|z: (Segment, V)|
        inserted_all(e, xs).contains(z) <==> inserted_all(e, ys).contains(z) by {
        assert(!e.contains(z));
    }
    lemma_sorted_unique(inserted_all(e, xs), inserted_all(e, ys));
}

} // verus!
