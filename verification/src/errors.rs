use vstd::prelude::*;

verus! {

/// Error returned when a text representation cannot be read as a grid.
#[derive(Clone, Copy, Debug, PartialEq, Eq, Structural)]
pub struct ParseGridError;

} // verus!
