//! The one way the trees refuse a request.

use vstd::prelude::*;

verus! {

/// A position or a range does not lie within the positions of the tree.
#[derive(Debug, Clone, Copy, PartialEq, Eq, Structural)]
pub struct IndexOutOfRange {
    /// The position that was asked for; for a range, its end, or its start
    /// where the start lies behind the end.
    pub index: usize,
    /// The number of positions of the tree.
    pub size: usize,
}

impl IndexOutOfRange {
    /// The error in words.
    pub fn message(&self) -> (res: String)
        ensures
            res@ == "index out of range"@,
    {
        String::from_str("index out of range")
    }
}

} // verus!
