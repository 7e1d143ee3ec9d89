//! The tree engine: an unbalanced binary search tree of entries, ordered so
//! that an in-order walk yields the content in ascending order.
use vstd::prelude::*;

use crate::content::{
    all_after, all_before, all_meet, clashes, holds_key, inserted, lemma_all_concat,
    lemma_inserted_back, lemma_inserted_front, lemma_inserted_sorted, lemma_sorted_parts, middle,
    slots, slots_from, sorted,
};
use crate::segment::Segment;

verus! {

pub struct Node<V> {
    pub segment: Segment,
    pub value: V,
    pub left: Option<Box<Node<V>>>,
    pub right: Option<Box<Node<V>>>,
}

/// The entries of a subtree, in order.
pub open spec fn entries<V>(link: Option<Box<Node<V>>>) -> Seq<(Segment, V)>
    decreases link,
{
    match link {
        None => seq![],
        Some(n) => entries(n.left) + seq![(n.segment, n.value)] + entries(n.right),
    }
}

pub proof fn lemma_entries_empty<V>(link: Option<Box<Node<V>>>)
    ensures
        entries(link).len() == 0 <==> link is None,
{
    if let Some(n) = link {
        assert(entries(link).len() == entries(n.left).len() + 1 + entries(n.right).len());
    }
}

/// What the order of a subtree says of its root and its two children.
pub proof fn lemma_node_parts<V>(n: Box<Node<V>>)
    requires
        sorted(entries(Some(n))),
    ensures
        sorted(entries(n.left)),
        sorted(entries(n.right)),
        n.segment.wf(),
        all_before(entries(n.left), n.segment),
        all_after(entries(n.right), n.segment),
{
    let l = entries(n.left);
    let x = seq![(n.segment, n.value)];
    let r = entries(n.right);
    assert(entries(Some(n)) == (l + x) + r);
    lemma_sorted_parts(l + x, r);
    lemma_sorted_parts(l, x);
    assert((l + x)[l.len() as int] == (n.segment, n.value));
    assert forall|i: int| 0 <= i < l.len() implies (#[trigger] l[i]).0.precedes(n.segment) by {
        assert(x[0] == (n.segment, n.value));
    }
    assert forall|j: int| 0 <= j < r.len() implies n.segment.precedes((#[trigger] r[j]).0) by {
        assert((l + x)[l.len() as int] == (n.segment, n.value));
    }
}

/// The entry whose segment holds `key`, if any.
pub fn find<V>(link: &Option<Box<Node<V>>>, key: i64) -> (r: Option<(&Segment, &V)>)
    requires
        sorted(entries(*link)),
    ensures
        match r {
            Some((s, v)) => s.contains(key as int) && entries(*link).contains((*s, *v)),
            None => !holds_key(entries(*link), key as int),
        },
    decreases *link,
{
    match link {
        None => None,
        Some(n) => {
            proof {
                lemma_node_parts(*n);
            }
            let ghost l = entries(n.left);
            let ghost x = seq![(n.segment, n.value)];
            let ghost rt = entries(n.right);
            let ghost c = entries(*link);
            assert(c == l + x + rt);
            assert forall|i: int| 0 <= i < c.len() implies (i < l.len() && c[i] == l[i]) || (i
                == l.len() && c[i] == x[0]) || (i > l.len() && c[i] == rt[i - l.len() - 1]) by {}
            if key < n.segment.start {
                let r = find(&n.left, key);
                proof {
                    assert forall|j: int| 0 <= j < rt.len() implies !(#[trigger] rt[j]).0.contains(
                        key as int,
                    ) by {
                        n.segment.lemma_order(rt[j].0);
                    }
                    if let Some((s, v)) = r {
                        let k = choose|k: int| 0 <= k < l.len() && l[k] == (*s, *v);
                        assert(c[k] == (*s, *v));
                    }
                }
                r
            } else if key >= n.segment.end {
                let r = find(&n.right, key);
                proof {
                    assert forall|j: int| 0 <= j < l.len() implies !(#[trigger] l[j]).0.contains(
                        key as int,
                    ) by {
                        l[j].0.lemma_order(n.segment);
                    }
                    if let Some((s, v)) = r {
                        let k = choose|k: int| 0 <= k < rt.len() && rt[k] == (*s, *v);
                        assert(c[k + l.len() + 1] == (*s, *v));
                    }
                }
                r
            } else {
                assert(c[l.len() as int] == (n.segment, n.value));
                Some((&n.segment, &n.value))
            }
        },
    }
}

/// Whether some entry of the subtree overlaps `seg`.
pub fn any_overlap<V>(link: &Option<Box<Node<V>>>, seg: &Segment) -> (r: bool)
    requires
        sorted(entries(*link)),
        seg.wf(),
    ensures
        r == clashes(entries(*link), *seg),
    decreases *link,
{
    match link {
        None => false,
        Some(n) => {
            proof {
                lemma_node_parts(*n);
            }
            let ghost l = entries(n.left);
            let ghost x = seq![(n.segment, n.value)];
            let ghost rt = entries(n.right);
            let ghost c = entries(*link);
            assert(c == l + x + rt);
            assert forall|i: int| 0 <= i < c.len() implies (i < l.len() && c[i] == l[i]) || (i
                == l.len() && c[i] == x[0]) || (i > l.len() && c[i] == rt[i - l.len() - 1]) by {}
            if seg.is_before(&n.segment) {
                let r = any_overlap(&n.right, seg);
                assert forall|j: int| 0 <= j < rt.len() implies !(#[trigger] rt[j]).0.overlaps(
                    *seg,
                ) by {
                    Segment::lemma_trans(*seg, n.segment, rt[j].0);
                }
                assert(!n.segment.overlaps(*seg));
                if r {
                    assert(false);
                }
                let r = any_overlap(&n.left, seg);
                proof {
                    if r {
                        let k = choose|k: int| 0 <= k < l.len() && (#[trigger] l[k]).0.overlaps(
                            *seg,
                        );
                        assert(c[k] == l[k]);
                    }
                }
                r
            } else if n.segment.is_before(seg) {
                assert forall|j: int| 0 <= j < l.len() implies !(#[trigger] l[j]).0.overlaps(
                    *seg,
                ) by {
                    Segment::lemma_trans(l[j].0, n.segment, *seg);
                }
                let r = any_overlap(&n.right, seg);
                proof {
                    if r {
                        let k = choose|k: int| 0 <= k < rt.len() && (#[trigger] rt[k]).0.overlaps(
                            *seg,
                        );
                        assert(c[k + l.len() + 1] == rt[k]);
                    }
                }
                r
            } else {
                assert(c[l.len() as int].0.overlaps(*seg));
                true
            }
        },
    }
}

/// One subtree holding the entries of `a` followed by those of `b`.
pub fn join<V>(a: Option<Box<Node<V>>>, b: Option<Box<Node<V>>>) -> (r: Option<Box<Node<V>>>)
    ensures
        entries(r) == entries(a) + entries(b),
    decreases a,
{
    match a {
        None => b,
        Some(n) => {
            let Node { segment, value, left, right } = *n;
            let joined = join(right, b);
            let r = Some(Box::new(Node { segment, value, left, right: joined }));
            assert(entries(r) =~= entries(a) + entries(b));
            r
        },
    }
}

/// Takes a subtree apart around `t`: the subtree of entries wholly before
/// `t`, the entries that overlap `t` (pushed onto `out` in order), and the
/// subtree of entries wholly after `t`.
pub fn split<V>(link: Option<Box<Node<V>>>, t: &Segment, out: &mut Vec<(Segment, V)>) -> (r: (
    Option<Box<Node<V>>>,
    Option<Box<Node<V>>>,
))
    requires
        sorted(entries(link)),
        t.wf(),
    ensures
        final(out)@.len() >= old(out)@.len(),
        final(out)@.subrange(0, old(out)@.len() as int) == old(out)@,
        entries(link) == entries(r.0) + final(out)@.subrange(
            old(out)@.len() as int,
            final(out)@.len() as int,
        ) + entries(r.1),
        all_before(entries(r.0), *t),
        all_meet(final(out)@.subrange(old(out)@.len() as int, final(out)@.len() as int), *t),
        all_after(entries(r.1), *t),
    decreases link,
{
    let ghost out0 = out@;
    match link {
        None => {
            assert(out@.subrange(out0.len() as int, out@.len() as int) =~= seq![]);
            assert(out@.subrange(0, out0.len() as int) =~= out0);
            (None, None)
        },
        Some(n) => {
            proof {
                lemma_node_parts(n);
            }
            let ghost l = entries(n.left);
            let ghost x = seq![(n.segment, n.value)];
            let ghost rt = entries(n.right);
            let Node { segment, value, left, right } = *n;
            if segment.is_before(t) {
                assert forall|i: int| 0 <= i < l.len() implies (#[trigger] l[i]).0.precedes(*t) by {
                    Segment::lemma_trans(l[i].0, segment, *t);
                }
                let (pre, post) = split(right, t, out);
                let ghost mid = out@.subrange(out0.len() as int, out@.len() as int);
                let r0 = Some(Box::new(Node { segment, value, left, right: pre }));
                proof {
                    lemma_all_concat(l, x, *t);
                    lemma_all_concat(l + x, entries(pre), *t);
                    assert(entries(r0) == l + x + entries(pre));
                    assert(entries(link) =~= entries(r0) + mid + entries(post));
                }
                (r0, post)
            } else if t.is_before(&segment) {
                assert forall|i: int| 0 <= i < rt.len() implies t.precedes((#[trigger] rt[i]).0) by {
                    Segment::lemma_trans(*t, segment, rt[i].0);
                }
                let (pre, post) = split(left, t, out);
                let ghost mid = out@.subrange(out0.len() as int, out@.len() as int);
                let r1 = Some(Box::new(Node { segment, value, left: post, right }));
                proof {
                    lemma_all_concat(entries(post), x, *t);
                    lemma_all_concat(entries(post) + x, rt, *t);
                    assert(entries(r1) == entries(post) + x + rt);
                    assert(entries(link) =~= entries(pre) + mid + entries(r1));
                }
                (pre, r1)
            } else {
                let (pre, post_l) = split(left, t, out);
                let ghost out1 = out@;
                let ghost mid_l = out1.subrange(out0.len() as int, out1.len() as int);
                proof {
                    if entries(post_l).len() > 0 {
                        let y = entries(post_l)[0];
                        assert(l[(entries(pre).len() + mid_l.len()) as int] == y);
                        Segment::lemma_trans(*t, y.0, segment);
                    }
                    lemma_entries_empty(post_l);
                }
                out.push((segment, value));
                let (pre_r, post) = split(right, t, out);
                let ghost out2 = out@;
                let ghost mid_r = out2.subrange(out1.len() as int + 1, out2.len() as int);
                proof {
                    assert(out2.subrange(0, out1.len() as int + 1) == out1.push((segment, value)));
                    if entries(pre_r).len() > 0 {
                        let y = entries(pre_r)[0];
                        assert(rt[0] == y);
                        Segment::lemma_trans(segment, y.0, *t);
                    }
                    lemma_entries_empty(pre_r);
                    assert(out2.subrange(0, out0.len() as int) =~= out0);
                    let mid = out2.subrange(out0.len() as int, out2.len() as int);
                    assert(out1 =~= out0 + mid_l);
                    assert(out2 =~= out1.push((segment, value)) + mid_r);
                    assert(mid =~= mid_l + x + mid_r);
                    lemma_all_concat(mid_l, x, *t);
                    lemma_all_concat(mid_l + x, mid_r, *t);
                    assert(entries(link) =~= entries(pre) + mid + entries(post));
                }
                (pre, post)
            }
        },
    }
}

/// The subtree with `(seg, value)` added in its place.
pub fn insert<V>(link: Option<Box<Node<V>>>, seg: Segment, value: V) -> (r: Option<Box<Node<V>>>)
    requires
        sorted(entries(link)),
        seg.wf(),
        !clashes(entries(link), seg),
    ensures
        entries(r) == inserted(entries(link), (seg, value)),
        sorted(entries(r)),
    decreases link,
{
    proof {
        lemma_inserted_sorted(entries(link), (seg, value));
    }
    match link {
        None => Some(Box::new(Node { segment: seg, value, left: None, right: None })),
        Some(n) => {
            proof {
                lemma_node_parts(n);
            }
            let ghost l = entries(n.left);
            let ghost x = seq![(n.segment, n.value)];
            let ghost rt = entries(n.right);
            let ghost c = entries(link);
            assert(c == l + x + rt);
            assert forall|i: int| 0 <= i < c.len() implies (i < l.len() && c[i] == l[i]) || (i
                == l.len() && c[i] == x[0]) || (i > l.len() && c[i] == rt[i - l.len() - 1]) by {}
            assert(c[l.len() as int] == x[0]);
            let Node { segment, value: v, left, right } = *n;
            if seg.is_before(&segment) {
                assert forall|i: int| 0 <= i < l.len() implies !(#[trigger] l[i]).0.overlaps(seg) by {
                    assert(c[i] == l[i]);
                }
                let nl = insert(left, seg, value);
                let r = Some(Box::new(Node { segment, value: v, left: nl, right }));
                proof {
                    lemma_inserted_front(l, x + rt, (seg, value));
                    assert(c =~= l + (x + rt));
                    assert(entries(r) =~= inserted(l, (seg, value)) + (x + rt));
                }
                r
            } else {
                assert(!segment.overlaps(seg));
                assert(segment.precedes(seg));
                assert forall|i: int| 0 <= i < rt.len() implies !(#[trigger] rt[i]).0.overlaps(
                    seg,
                ) by {
                    assert(c[i + l.len() + 1] == rt[i]);
                }
                let ghost lx = l + x;
                assert forall|i: int| 0 <= i < lx.len() implies !seg.precedes((#[trigger] lx[i]).0) by {
                    segment.lemma_order(seg);
                    if i < l.len() {
                        Segment::lemma_trans(lx[i].0, segment, seg);
                        lx[i].0.lemma_order(seg);
                    }
                }
                let nr = insert(right, seg, value);
                let r = Some(Box::new(Node { segment, value: v, left, right: nr }));
                proof {
                    lemma_inserted_back(lx, rt, (seg, value));
                    assert(entries(r) =~= lx + inserted(rt, (seg, value)));
                }
                r
            }
        },
    }
}

/// Where the first entry of a subtree starts.
pub fn first_start<V>(n: &Box<Node<V>>) -> (r: i64)
    ensures
        r == entries(Some(*n))[0].0.start,
    decreases *n,
{
    match &n.left {
        None => n.segment.start,
        Some(l) => {
            let r = first_start(l);
            assert(entries(Some(*n)) == entries(n.left) + (seq![(n.segment, n.value)] + entries(n.right)));
            r
        },
    }
}

/// Where the last entry of a subtree ends.
pub fn last_end<V>(n: &Box<Node<V>>) -> (r: i64)
    ensures
        r == entries(Some(*n)).last().0.end,
    decreases *n,
{
    match &n.right {
        None => {
            assert(n.right is None);
            assert(entries::<V>(None) =~= seq![]);
            assert(entries(Some(*n)) == entries(n.left) + seq![(n.segment, n.value)] + entries(n.right));
            assert(entries(Some(*n)) =~= entries(n.left) + seq![(n.segment, n.value)]);
            n.segment.end
        },
        Some(rt) => {
            let r = last_end(rt);
            proof {
                lemma_entries_empty(n.right);
                assert(entries(Some(*n)) == (entries(n.left) + seq![(n.segment, n.value)]) + entries(n.right));
            }
            r
        },
    }
}

/// `split` into a fresh vector.
pub fn cut<V>(link: Option<Box<Node<V>>>, t: &Segment) -> (r: (
    Option<Box<Node<V>>>,
    Vec<(Segment, V)>,
    Option<Box<Node<V>>>,
))
    requires
        sorted(entries(link)),
        t.wf(),
    ensures
        entries(link) == entries(r.0) + r.1@ + entries(r.2),
        all_before(entries(r.0), *t),
        all_meet(r.1@, *t),
        all_after(entries(r.2), *t),
{
    let mut mid: Vec<(Segment, V)> = Vec::new();
    let (pre, post) = split(link, t, &mut mid);
    assert(mid@.subrange(0, mid@.len() as int) =~= mid@);
    (pre, mid, post)
}

/// One subtree holding the entries of `pre`, then `items`, then those of
/// `post`.
pub fn rebuild<V: Copy>(
    pre: Option<Box<Node<V>>>,
    items: &Vec<(Segment, V)>,
    post: Option<Box<Node<V>>>,
) -> (r: Option<Box<Node<V>>>)
    ensures
        entries(r) == entries(pre) + items@ + entries(post),
{
    let mut tree = pre;
    let mut i: usize = 0;
    while i < items.len()
        invariant
            0 <= i <= items.len(),
            entries(tree) == entries(pre) + items@.take(i as int),
        decreases items.len() - i,
    {
        let (segment, value) = items[i];
        let leaf = Some(Box::new(Node { segment, value, left: None, right: None }));
        assert(entries::<V>(None) =~= seq![]);
        assert(entries(leaf) =~= seq![(segment, value)]);
        tree = join(tree, leaf);
        assert(items@.take(i as int + 1) =~= items@.take(i as int).push((segment, value)));
        assert(entries(tree) =~= entries(pre) + items@.take(i as int + 1));
        i = i + 1;
    }
    assert(items@.take(i as int) =~= items@);
    join(tree, post)
}

/// The slots of `t` over the touched entries `m`: see `slots`.
pub fn slots_of<V: Copy>(m: &Vec<(Segment, V)>, t: &Segment) -> (r: Vec<(Segment, Option<V>)>)
    ensures
        r@ == slots(m@, *t),
{
    let mut r: Vec<(Segment, Option<V>)> = Vec::new();
    if m.len() == 0 {
        r.push((*t, None));
        assert(r@ =~= seq![(*t, Option::<V>::None)]);
        return r;
    }
    let mut cursor: i64 = t.start;
    let mut i: usize = 0;
    assert(m@.skip(0) =~= m@);
    assert(r@ + slots_from(m@.skip(0), cursor, *t) =~= slots_from(m@, t.start, *t));
    while i < m.len()
        invariant
            0 <= i <= m.len(),
            r@ + slots_from(m@.skip(i as int), cursor, *t) == slots_from(m@, t.start, *t),
        decreases m.len() - i,
    {
        let (seg, value) = m[i];
        let start = if seg.start < cursor {
            cursor
        } else {
            seg.start
        };
        let end = if seg.end < t.end {
            seg.end
        } else {
            t.end
        };
        let mid = Segment { start, end };
        let ghost rest = m@.skip(i as int);
        assert(rest[0] == (seg, value));
        assert(mid == middle(seg, cursor, *t));
        assert(rest.drop_first() =~= m@.skip(i as int + 1));
        let ghost r0 = r@;
        if cursor < start {
            r.push((Segment { start: cursor, end: start }, None));
        }
        r.push((mid, Some(value)));
        assert(r@ + slots_from(m@.skip(i as int + 1), end, *t) =~= r0 + slots_from(rest, cursor, *t));
        cursor = end;
        i = i + 1;
    }
    let ghost r0 = r@;
    if cursor < t.end {
        r.push((Segment { start: cursor, end: t.end }, None));
    }
    assert(m@.skip(i as int) =~= seq![]);
    assert(r@ =~= r0 + slots_from(m@.skip(i as int), cursor, *t));
    r
}

} // verus!
