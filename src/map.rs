//! The map: at most one tree of entries, with the public operations.
use vstd::prelude::*;

use crate::content::{
    clashes, emitted, holds_key, inserted, inserted_all, left_rest, lemma_splice_parts, removed,
    right_rest, slots, sorted, spliced, touched,
};
use crate::node::{
    any_overlap, cut, entries, find, first_start, insert, last_end, rebuild, slots_of, Node,
};
use crate::segment::Segment;

verus! {

/// An insertion refused because its segment overlaps a stored one. The
/// entry comes back unchanged.
#[derive(Clone, Debug, PartialEq, Eq)]
pub struct OverlapError<V> {
    pub segment: Segment,
    pub value: V,
}

/// A map from disjoint half-open segments of `i64` keys to values.
pub struct SegmentMap<V> {
    root: Option<Box<Node<V>>>,
}

impl<V> View for SegmentMap<V> {
    type V = Seq<(Segment, V)>;

    /// The entries, in ascending order.
    closed spec fn view(&self) -> Seq<(Segment, V)> {
        entries(self.root)
    }
}

/// `outs` are outcomes that `f` may give for the prior values of the slots `s`.
pub open spec fn outcomes<V, F: Fn(Option<V>) -> Option<V>>(
    f: F,
    s: Seq<(Segment, Option<V>)>,
    outs: Seq<Option<V>>,
) -> bool {
    &&& outs.len() == s.len()
    &&& forall|k: int| 0 <= k < s.len() ==> f.ensures((s[k].1,), #[trigger] outs[k])
}

/// `outs` are outcomes that `f` may give for the slots `s`, each offered with
/// its sub-range.
pub open spec fn entry_outcomes<V, F: Fn(&Segment, Option<V>) -> Option<V>>(
    f: F,
    s: Seq<(Segment, Option<V>)>,
    outs: Seq<Option<V>>,
) -> bool {
    &&& outs.len() == s.len()
    &&& forall|k: int| 0 <= k < s.len() ==> f.ensures((&s[k].0, s[k].1), #[trigger] outs[k])
}

impl<V> SegmentMap<V> {
    /// Stored segments never overlap and are kept in ascending order.
    pub open spec fn wf(&self) -> bool {
        sorted(self@)
    }

    pub(crate) fn root_ref(&self) -> (r: &Option<Box<Node<V>>>)
        ensures
            entries(*r) == self@,
    {
        &self.root
    }

    pub(crate) fn into_root(self) -> (r: Option<Box<Node<V>>>)
        ensures
            entries(r) == self@,
    {
        self.root
    }

    pub fn new() -> (r: SegmentMap<V>)
        ensures
            r.wf(),
            r@ == Seq::<(Segment, V)>::empty(),
    {
        SegmentMap { root: None }
    }

    pub fn is_empty(&self) -> (r: bool)
        ensures
            r == (self@.len() == 0),
    {
        proof {
            crate::node::lemma_entries_empty(self.root);
        }
        self.root.is_none()
    }

    pub fn clear(&mut self)
        ensures
            final(self).wf(),
            final(self)@ == Seq::<(Segment, V)>::empty(),
    {
        self.root = None;
    }

    /// The segment from the start of the first entry to the end of the last.
    pub fn span(&self) -> (r: Option<Segment>)
        ensures
            self@.len() == 0 ==> r is None,
            self@.len() > 0 ==> r == Some(
                Segment { start: self@[0].0.start, end: self@.last().0.end },
            ),
    {
        proof {
            crate::node::lemma_entries_empty(self.root);
        }
        match &self.root {
            None => None,
            Some(n) => Some(Segment { start: first_start(n), end: last_end(n) }),
        }
    }

    /// The value of the entry whose segment holds `key`.
    pub fn get(&self, key: &i64) -> (r: Option<&V>)
        requires
            self.wf(),
        ensures
            match r {
                Some(v) => exists|i: int|
                    0 <= i < self@.len() && (#[trigger] self@[i]).0.contains(*key as int)
                        && self@[i].1 == *v,
                None => !holds_key(self@, *key as int),
            },
    {
        match find(&self.root, *key) {
            Some((_, v)) => Some(v),
            None => None,
        }
    }

    /// The entry whose segment holds `key`.
    pub fn get_entry(&self, key: &i64) -> (r: Option<(&Segment, &V)>)
        requires
            self.wf(),
        ensures
            match r {
                Some((s, v)) => s.contains(*key as int) && self@.contains((*s, *v)),
                None => !holds_key(self@, *key as int),
            },
    {
        find(&self.root, *key)
    }

    pub fn contains_key(&self, key: &i64) -> (r: bool)
        requires
            self.wf(),
        ensures
            r == holds_key(self@, *key as int),
    {
        self.get_entry(key).is_some()
    }

    /// Adds an entry whose segment overlaps none stored; otherwise hands it
    /// back and leaves the map as it was.
    pub fn insert(&mut self, segment: Segment, value: V) -> (r: Result<(), OverlapError<V>>)
        requires
            old(self).wf(),
            segment.wf(),
        ensures
            final(self).wf(),
            r is Ok <==> !clashes(old(self)@, segment),
            r is Ok ==> final(self)@ == inserted(old(self)@, (segment, value)),
            r is Err ==> final(self)@ == old(self)@,
            r matches Err(e) ==> e.segment == segment && e.value == value,
    {
        if any_overlap(&self.root, &segment) {
            return Err(OverlapError { segment, value });
        }
        let root = self.root.take();
        self.root = insert(root, segment, value);
        Ok(())
    }
}

impl<V: Copy> SegmentMap<V> {
    /// Inserts each entry of `items` in turn, stopping at the first whose
    /// segment overlaps a stored one; that entry comes back and the entries
    /// before it stay inserted.
    pub fn extend(&mut self, items: &Vec<(Segment, V)>) -> (r: Result<(), OverlapError<V>>)
        requires
            old(self).wf(),
            forall|i: int| 0 <= i < items@.len() ==> (#[trigger] items@[i]).0.wf(),
        ensures
            final(self).wf(),
            r is Ok ==> final(self)@ == inserted_all(old(self)@, items@),
            r is Ok ==> forall|k: int|
                0 <= k < items@.len() ==> !clashes(
                    inserted_all(old(self)@, items@.take(k)),
                    (#[trigger] items@[k]).0,
                ),
            r matches Err(e) ==> exists|k: int|
                0 <= k < items@.len() && final(self)@ == inserted_all(old(self)@, items@.take(k))
                    && clashes(final(self)@, (#[trigger] items@[k]).0) && e.segment == items@[k].0
                    && e.value == items@[k].1 && forall|j: int|
                    0 <= j < k ==> !clashes(
                        inserted_all(old(self)@, items@.take(j)),
                        (#[trigger] items@[j]).0,
                    ),
    {
        let mut i: usize = 0;
        while i < items.len()
            invariant
                0 <= i <= items.len(),
                self.wf(),
                forall|k: int| 0 <= k < items@.len() ==> (#[trigger] items@[k]).0.wf(),
                self@ == inserted_all(old(self)@, items@.take(i as int)),
                forall|j: int|
                    0 <= j < i ==> !clashes(
                        inserted_all(old(self)@, items@.take(j)),
                        (#[trigger] items@[j]).0,
                    ),
            decreases items.len() - i,
        {
            let (segment, value) = items[i];
            match self.insert(segment, value) {
                Ok(()) => {},
                Err(e) => {
                    return Err(e);
                },
            }
            proof {
                lemma_inserted_all_step(old(self)@, items@, i as int);
            }
            i = i + 1;
        }
        assert(items@.take(i as int) =~= items@);
        Ok(())
    }

    /// Deletes what lies inside `segment`: entries inside it go, entries that
    /// reach past it keep the parts outside it.
    pub fn remove(&mut self, segment: &Segment)
        requires
            old(self).wf(),
            segment.wf(),
        ensures
            final(self).wf(),
            final(self)@ == removed(old(self)@, *segment),
    {
        let root = self.root.take();
        let (pre, mid, post) = cut(root, segment);
        let mut pieces: Vec<(Segment, V)> = Vec::new();
        self.push_left_rest(&mid, segment, &mut pieces);
        self.push_right_rest(&mid, segment, &mut pieces);
        proof {
            lemma_splice_parts(entries(pre), mid@, entries(post), *segment, seq![]);
        }
        self.root = rebuild(pre, &pieces, post);
    }

    /// Rewrites `segment`: each slot of it (the part inside it of each
    /// stored entry, and each gap between them) is offered to `value` with
    /// its prior value, and holds what `value` gives. Parts of entries
    /// outside `segment` keep their values.
    pub fn update<F>(&mut self, segment: &Segment, value: F)
        where
            F: Fn(Option<V>) -> Option<V>,
        requires
            old(self).wf(),
            segment.wf(),
            forall|o: Option<V>| value.requires((o,)),
        ensures
            final(self).wf(),
            exists|outs: Seq<Option<V>>|
                outcomes(value, slots(touched(old(self)@, *segment), *segment), outs)
                    && final(self)@ == #[trigger] spliced(old(self)@, *segment, outs),
    {
        let root = self.root.take();
        let (pre, mid, post) = cut(root, segment);
        let sl = slots_of(&mid, segment);
        let mut pieces: Vec<(Segment, V)> = Vec::new();
        self.push_left_rest(&mid, segment, &mut pieces);
        let ghost lr = pieces@;
        let ghost mut outs: Seq<Option<V>> = seq![];
        let mut i: usize = 0;
        while i < sl.len()
            invariant
                0 <= i <= sl.len(),
                forall|o: Option<V>| value.requires((o,)),
                outs.len() == i,
                forall|k: int| 0 <= k < i ==> value.ensures((sl@[k].1,), #[trigger] outs[k]),
                pieces@ == lr + emitted(sl@.take(i as int), outs),
            decreases sl.len() - i,
        {
            let (sub, prior) = sl[i];
            let out = value(prior);
            let ghost outs0 = outs;
            proof {
                outs = outs.push(out);
            }
            if let Some(v) = out {
                pieces.push((sub, v));
            }
            assert(sl@.take(i as int + 1).drop_last() =~= sl@.take(i as int));
            assert(outs.drop_last() =~= outs0);
            i = i + 1;
        }
        assert(sl@.take(i as int) =~= sl@);
        self.push_right_rest(&mid, segment, &mut pieces);
        proof {
            lemma_splice_parts(entries(pre), mid@, entries(post), *segment, outs);
        }
        self.root = rebuild(pre, &pieces, post);
        assert(outcomes(value, slots(touched(old(self)@, *segment), *segment), outs));
    }

    /// As `update`, with each slot offered together with its sub-range.
    pub fn update_entry<F>(&mut self, segment: &Segment, value: F)
        where
            F: Fn(&Segment, Option<V>) -> Option<V>,
        requires
            old(self).wf(),
            segment.wf(),
            forall|s: Segment, o: Option<V>| value.requires((&s, o)),
        ensures
            final(self).wf(),
            exists|outs: Seq<Option<V>>|
                entry_outcomes(value, slots(touched(old(self)@, *segment), *segment), outs)
                    && final(self)@ == #[trigger] spliced(old(self)@, *segment, outs),
    {
        let root = self.root.take();
        let (pre, mid, post) = cut(root, segment);
        let sl = slots_of(&mid, segment);
        let mut pieces: Vec<(Segment, V)> = Vec::new();
        self.push_left_rest(&mid, segment, &mut pieces);
        let ghost lr = pieces@;
        let ghost mut outs: Seq<Option<V>> = seq![];
        let mut i: usize = 0;
        while i < sl.len()
            invariant
                0 <= i <= sl.len(),
                forall|s: Segment, o: Option<V>| value.requires((&s, o)),
                outs.len() == i,
                forall|k: int|
                    0 <= k < i ==> value.ensures((&sl@[k].0, sl@[k].1), #[trigger] outs[k]),
                pieces@ == lr + emitted(sl@.take(i as int), outs),
            decreases sl.len() - i,
        {
            let (sub, prior) = sl[i];
            let out = value(&sub, prior);
            let ghost outs0 = outs;
            proof {
                outs = outs.push(out);
            }
            if let Some(v) = out {
                pieces.push((sub, v));
            }
            assert(sl@.take(i as int + 1).drop_last() =~= sl@.take(i as int));
            assert(outs.drop_last() =~= outs0);
            i = i + 1;
        }
        assert(sl@.take(i as int) =~= sl@);
        self.push_right_rest(&mid, segment, &mut pieces);
        proof {
            lemma_splice_parts(entries(pre), mid@, entries(post), *segment, outs);
        }
        self.root = rebuild(pre, &pieces, post);
        assert(entry_outcomes(value, slots(touched(old(self)@, *segment), *segment), outs));
    }

    /// Pushes what is left of the first touched entry in front of `t`.
    fn push_left_rest(&self, m: &Vec<(Segment, V)>, t: &Segment, out: &mut Vec<(Segment, V)>)
        ensures
            final(out)@ == old(out)@ + left_rest(m@, *t),
    {
        if m.len() > 0 && m[0].0.start < t.start {
            let (seg, v) = m[0];
            out.push((Segment { start: seg.start, end: t.start }, v));
        }
        assert(out@ =~= old(out)@ + left_rest(m@, *t));
    }

    /// Pushes what is left of the last touched entry behind `t`.
    fn push_right_rest(&self, m: &Vec<(Segment, V)>, t: &Segment, out: &mut Vec<(Segment, V)>)
        ensures
            final(out)@ == old(out)@ + right_rest(m@, *t),
    {
        if m.len() > 0 && t.end < m[m.len() - 1].0.end {
            let (seg, v) = m[m.len() - 1];
            out.push((Segment { start: t.end, end: seg.end }, v));
        }
        assert(out@ =~= old(out)@ + right_rest(m@, *t));
    }
}

proof fn lemma_inserted_all_step<V>(c: Seq<(Segment, V)>, xs: Seq<(Segment, V)>, i: int)
    requires
        0 <= i < xs.len(),
    ensures
        inserted_all(c, xs.take(i + 1)) == inserted(inserted_all(c, xs.take(i)), xs[i]),
    decreases i,
{
    if i > 0 {
        let t1 = xs.take(i + 1);
        let xs1 = xs.drop_first();
        assert(t1[0] == xs[0]);
        assert(xs.take(i)[0] == xs[0]);
        assert(t1.drop_first() =~= xs1.take(i));
        assert(xs.take(i).drop_first() =~= xs1.take(i - 1));
        lemma_inserted_all_step(inserted(c, xs[0]), xs1, i - 1);
        assert(xs1[i - 1] == xs[i]);
    } else {
        assert(xs.take(1)[0] == xs[0]);
        assert(xs.take(1).drop_first() =~= seq![]);
        assert(xs.take(0) =~= seq![]);
        assert(inserted_all(inserted(c, xs[0]), Seq::<(Segment, V)>::empty()) == inserted(c, xs[0]));
    }
}

} // verus!
