//! A bounded top-N selector: from a stream of pushed items it keeps only the
//! `capacity` greatest seen so far.
//!
//! [`topn::TopN`] is the selector. It stores its items in a [`heap::MinHeap`],
//! an array-backed binary heap with the least item in front. Contracts are
//! stated over the multiset of retained items; [`model`] defines the relations
//! they use and proves what holds over whole runs of pushes and pops.

pub mod heap;
pub mod model;
pub mod order;
pub mod topn;
