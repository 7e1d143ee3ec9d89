//! In-order walks over a map's entries, one node at a time, with an explicit
//! stack of the nodes whose entry and right subtree are still to come.
use vstd::prelude::*;

use crate::map::SegmentMap;
use crate::node::{entries, Node};
use crate::segment::Segment;

verus! {

/// What a stack of borrowed nodes still has to yield: each node's entry and
/// then its right subtree, from the top of the stack down.
pub open spec fn pending_refs<V>(stack: Seq<&Box<Node<V>>>) -> Seq<(Segment, V)>
    decreases stack.len(),
{
    if stack.len() == 0 {
        seq![]
    } else {
        let n = stack.last();
        seq![(n.segment, n.value)] + entries(n.right) + pending_refs(stack.drop_last())
    }
}

/// What a stack of owned entries still has to yield, top first.
pub open spec fn pending_owned<V>(stack: Seq<(Segment, V, Option<Box<Node<V>>>)>) -> Seq<
    (Segment, V),
>
    decreases stack.len(),
{
    if stack.len() == 0 {
        seq![]
    } else {
        let top = stack.last();
        seq![(top.0, top.1)] + entries(top.2) + pending_owned(stack.drop_last())
    }
}

/// A walk over borrowed entries in ascending order.
pub struct Iter<'a, V> {
    current: Option<&'a Box<Node<V>>>,
    stack: Vec<&'a Box<Node<V>>>,
}

impl<'a, V> View for Iter<'a, V> {
    type V = Seq<(Segment, V)>;

    /// The entries still to come.
    closed spec fn view(&self) -> Seq<(Segment, V)> {
        (match self.current {
            Some(n) => entries(Some(*n)),
            None => seq![],
        }) + pending_refs(self.stack@)
    }
}

impl<'a, V> Iter<'a, V> {
    pub fn next(&mut self) -> (r: Option<(&'a Segment, &'a V)>)
        ensures
            old(self)@.len() == 0 ==> r is None && final(self)@ == old(self)@,
            old(self)@.len() > 0 ==> final(self)@ == old(self)@.drop_first() && r is Some,
            r matches Some((s, v)) ==> old(self)@.len() > 0 && (*s, *v) == old(self)@[0],
    {
        let ghost start = self@;
        while self.current.is_some()
            invariant
                self@ == start,
            decreases match self.current {
                Some(n) => entries(Some(*n)).len(),
                None => 0,
            },
        {
            let n = self.current.unwrap();
            let ghost stack0 = self.stack@;
            let ghost view0 = self@;
            self.stack.push(n);
            self.current = n.left.as_ref();
            proof {
                crate::node::lemma_entries_empty(n.left);
                assert(self.stack@.drop_last() =~= stack0);
                assert(pending_refs(self.stack@) == seq![(n.segment, n.value)] + entries(n.right)
                    + pending_refs(stack0));
                assert(view0 == entries(Some(*n)) + pending_refs(stack0));
                assert(entries(Some(*n)) == entries(n.left) + seq![(n.segment, n.value)]
                    + entries(n.right));
            }
            assert(self@ =~= start);
        }
        let ghost before_pop = self.stack@;
        match self.stack.pop() {
            Some(n) => {
                self.current = n.right.as_ref();
                proof {
                    crate::node::lemma_entries_empty(n.right);
                }
                assert(before_pop.drop_last() == self.stack@);
                assert(start =~= seq![(n.segment, n.value)] + self@);
                Some((&n.segment, &n.value))
            },
            None => {
                assert(start =~= seq![]);
                None
            },
        }
    }
}

/// A walk over the segments of a map in ascending order.
pub struct Segments<'a, V> {
    inner: Iter<'a, V>,
}

impl<'a, V> View for Segments<'a, V> {
    type V = Seq<(Segment, V)>;

    /// The entries whose segments are still to come.
    closed spec fn view(&self) -> Seq<(Segment, V)> {
        self.inner@
    }
}

impl<'a, V> Segments<'a, V> {
    pub fn next(&mut self) -> (r: Option<&'a Segment>)
        ensures
            old(self)@.len() == 0 ==> r is None && final(self)@ == old(self)@,
            old(self)@.len() > 0 ==> final(self)@ == old(self)@.drop_first() && r == Some(
                &old(self)@[0].0,
            ),
    {
        match self.inner.next() {
            Some((s, _)) => Some(s),
            None => None,
        }
    }
}

/// A walk over the values of a map, in the order of their segments.
pub struct Values<'a, V> {
    inner: Iter<'a, V>,
}

impl<'a, V> View for Values<'a, V> {
    type V = Seq<(Segment, V)>;

    /// The entries whose values are still to come.
    closed spec fn view(&self) -> Seq<(Segment, V)> {
        self.inner@
    }
}

impl<'a, V> Values<'a, V> {
    pub fn next(&mut self) -> (r: Option<&'a V>)
        ensures
            old(self)@.len() == 0 ==> r is None && final(self)@ == old(self)@,
            old(self)@.len() > 0 ==> final(self)@ == old(self)@.drop_first() && r == Some(
                &old(self)@[0].1,
            ),
    {
        match self.inner.next() {
            Some((_, v)) => Some(v),
            None => None,
        }
    }
}

/// A walk that takes the entries of a map, in ascending order.
pub struct IntoIter<V> {
    current: Option<Box<Node<V>>>,
    stack: Vec<(Segment, V, Option<Box<Node<V>>>)>,
}

impl<V> View for IntoIter<V> {
    type V = Seq<(Segment, V)>;

    /// The entries still to come.
    closed spec fn view(&self) -> Seq<(Segment, V)> {
        entries(self.current) + pending_owned(self.stack@)
    }
}

impl<V> IntoIter<V> {
    pub fn next(&mut self) -> (r: Option<(Segment, V)>)
        ensures
            old(self)@.len() == 0 ==> r is None && final(self)@ == old(self)@,
            old(self)@.len() > 0 ==> final(self)@ == old(self)@.drop_first() && r == Some(
                old(self)@[0],
            ),
    {
        let ghost start = self@;
        while self.current.is_some()
            invariant
                self@ == start,
            decreases entries(self.current).len(),
        {
            let ghost view0 = self@;
            let n = self.current.take().unwrap();
            let ghost stack0 = self.stack@;
            let Node { segment, value, left, right } = *n;
            let ghost rt = right;
            let ghost lt = left;
            self.stack.push((segment, value, right));
            self.current = left;
            proof {
                assert(self.stack@.drop_last() =~= stack0);
                assert(pending_owned(self.stack@) == seq![(segment, value)] + entries(rt)
                    + pending_owned(stack0));
                assert(view0 == entries(Some(n)) + pending_owned(stack0));
                assert(entries(Some(n)) == entries(lt) + seq![(segment, value)] + entries(rt));
            }
            assert(self@ =~= start);
        }
        let ghost before_pop = self.stack@;
        match self.stack.pop() {
            Some((segment, value, right)) => {
                self.current = right;
                assert(before_pop.drop_last() == self.stack@);
                assert(start =~= seq![(segment, value)] + self@);
                Some((segment, value))
            },
            None => {
                assert(start =~= seq![]);
                None
            },
        }
    }
}

impl<V> SegmentMap<V> {
    /// A walk over the entries in ascending order.
    pub fn iter(&self) -> (r: Iter<'_, V>)
        ensures
            r@ == self@,
    {
        let root = self.root_ref();
        let r = Iter { current: root.as_ref(), stack: Vec::new() };
        proof {
            crate::node::lemma_entries_empty(*root);
        }
        assert(r@ =~= self@);
        r
    }

    /// A walk over the segments in ascending order.
    pub fn segments(&self) -> (r: Segments<'_, V>)
        ensures
            r@ == self@,
    {
        Segments { inner: self.iter() }
    }

    /// A walk over the values, in the order of their segments.
    pub fn values(&self) -> (r: Values<'_, V>)
        ensures
            r@ == self@,
    {
        Values { inner: self.iter() }
    }

    /// A walk that takes the entries in ascending order.
    pub fn into_iter(self) -> (r: IntoIter<V>)
        ensures
            r@ == self@,
    {
        let r = IntoIter { current: self.into_root(), stack: Vec::new() };
        assert(r@ =~= self@);
        r
    }
}

} // verus!
