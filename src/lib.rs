//! A copy-on-write key-value table engine over an append-only page store.
//!
//! A table's tree is a leaf, or a branch over ordered leaves. Every edit writes
//! the nodes it changes to fresh pages and records the pages they replace as
//! freed, so a reader holding an older root keeps seeing exactly the entries it
//! opened. Contracts speak of a tree's entries as one ordered sequence of
//! (key, value) byte strings, ordered by the table's key order.
use vstd::prelude::*;

pub mod order;
pub mod node;
pub mod store;
pub mod tree;
pub mod bounds;
pub mod iter;
pub mod table;
pub mod transaction;
pub mod guarantees;

pub use order::KeyOrder;
pub use node::Entry;
pub use store::{Page, PageStore, PageNumber};
pub use bounds::{KeyBound, KeyRange};
pub use iter::RangeIter;
pub use table::{Table, ReadOnlyTable, ReadableTable, Drain};
pub use transaction::{WriteTransaction, TableError};

verus! {

} // verus!
