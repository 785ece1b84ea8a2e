use vstd::prelude::*;

verus! {

/// The ways in which an operation on a skip list can end without effect.
#[derive(Clone, Copy, Debug, PartialEq, Eq, Structural)]
pub enum SkipListError {
    /// The key to insert is already in the list.
    AlreadyPresent,
    /// The key to delete is not in the list.
    NotFound,
    /// The list was asked for with no level at all.
    InvalidConfiguration,
}

} // verus!
