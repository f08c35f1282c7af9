//! The failure that stops the reformatting of a document.

use vstd::prelude::*;

verus! {

/// Why a document could not be reformatted.
#[derive(Debug, Clone, Copy, PartialEq, Eq, Structural)]
pub enum FormatError {
    /// The leading whitespace of the line (counted from 1) mixes tabs and
    /// spaces.
    MixedIndentation { line: usize },
}

} // verus!
