use vstd::prelude::*;

verus! {

/// Why a list operation left the list untouched.
#[derive(Clone, Copy, Debug, PartialEq, Eq, Structural)]
pub enum ListError {
    /// The list holds no node.
    Empty,
    /// No node holds a value equal to the one looked for.
    NotFound,
    /// The index lies past the end of the list.
    OutOfRange,
}

} // verus!
