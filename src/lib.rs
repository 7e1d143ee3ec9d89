//! An ordered map from disjoint half-open key ranges to values.
//!
//! A [`SegmentMap`] stores entries `(segment, value)` whose segments never
//! overlap, in an unbalanced binary search tree. Besides lookup by key and
//! strict insertion, it removes and rewrites whole ranges: an entry that
//! reaches past the range is cut at its edges, and the parts outside keep
//! their value. A segment with `start == end` is a point marker; no key finds
//! it, but walks yield it.
//!
//! The content of a map is modelled as the sequence of its entries in
//! ascending order (module [`content`]); every operation states its result
//! over that model, and module [`laws`] proves what holds across operations.
use vstd::prelude::*;

pub mod content;
mod iter;
pub mod laws;
mod map;
mod node;
mod segment;

pub use iter::{IntoIter, Iter, Segments, Values};
pub use map::{entry_outcomes, outcomes, OverlapError, SegmentMap};
pub use segment::Segment;

verus! {

} // verus!
