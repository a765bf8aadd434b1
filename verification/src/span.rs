//! Source spans.

use vstd::prelude::*;

verus! {

/// A range of bytes of the source text.
#[derive(Debug, Clone, Copy, PartialEq, Eq, Hash, Structural)]
pub struct Span {
    pub start_byte: usize,
    pub end_byte: usize,
}

} // verus!
