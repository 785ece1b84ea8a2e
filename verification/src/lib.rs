//! An ordered set of `i32` keys kept in a skip list: a sorted linked list with
//! express lanes, in which a search, an insertion and a deletion each take a
//! logarithmic number of steps on average.
//!
//! [`SkipList`] is the list. Its contracts speak of the keys of each level
//! as a strictly increasing sequence; `model` holds what is said of such
//! sequences, `laws` and `history` what follows for a list that is changed
//! step by step. `level` draws the height of a new tower from coin flips, and
//! `grid` lays a list out for display.

pub mod error;
pub mod grid;
pub mod history;
mod lane;
pub mod laws;
pub mod level;
pub mod list;
pub mod model;
mod node;

pub use crate::error::SkipListError;
pub use crate::list::SkipList;
