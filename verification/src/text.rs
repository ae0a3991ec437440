//! Places in the text being edited.
use vstd::prelude::*;

verus! {

/// A place in the text: a line, and a character along it.
#[derive(Clone, Copy, PartialEq, Eq, Debug, Structural)]
pub struct Cursor {
    pub line: usize,
    pub col: usize,
}

} // verus!
