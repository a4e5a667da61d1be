//! Elements kept in sorted groups.
//!
//! A [`SortedGroups`] container partitions its elements by a key that a
//! caller-supplied function derives from each element. Groups are kept in
//! ascending key order, and the elements of a group in ascending element
//! order, without duplicates.
use vstd::prelude::*;

pub mod counting;
pub mod element;
pub mod flatten;
pub mod iter;
pub mod laws;
pub mod sorted_groups;

pub use element::Element;
pub use iter::SortedGroupsIter;
pub use sorted_groups::SortedGroups;
