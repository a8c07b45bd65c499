//! Errors reported by the codec and the tables.

use vstd::prelude::*;

verus! {

/// What can go wrong while decoding a token stream or editing the tables.
#[derive(Debug, Clone, Copy, PartialEq, Eq, Structural)]
pub enum MsbtError {
    /// A label table was asked for with no bucket at all.
    InvalidGroupCount,
    /// A label refers to a text entry that the text table does not hold.
    IndexOutOfRange,
    /// The stream ends inside a control tag; `offset` is where the tag's
    /// start code stands.
    TruncatedTagStart { offset: usize },
}

} // verus!
