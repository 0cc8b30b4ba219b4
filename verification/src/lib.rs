//! An ordered map on a 2-3 tree. It finds an entry by its key, removes an
//! entry by its key and finds the entry of a given rank in ascending key
//! order, each in logarithmic time, and it hands out cursors that walk the
//! entries in that order.
//!
//! - [`IndexableSortedMap`] is the map, [`TreeZipper`] the cursor.
//! - `sorted_entries` holds the model that the contracts speak of: the
//!   entries of a map as a sequence in ascending key order.
//! - `key_order` says what the map asks of its key type.
//! - `node`, `insertion` and `removal` hold the tree.
//! - `zipper` holds the cursor and its path.
//! - `laws` states what holds of every valid map and cursor.

pub mod indexable_sorted_map;
pub mod insertion;
pub mod key_order;
pub mod laws;
pub mod node;
pub mod removal;
pub mod sorted_entries;
pub mod zipper;

pub use crate::indexable_sorted_map::IndexableSortedMap;
pub use crate::zipper::TreeZipper;
