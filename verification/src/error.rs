//! Error enum of the library.

use vstd::prelude::*;

verus! {

/// Enum to manage error
#[derive(Debug)]
pub enum Error {
    /// Sequence is larger than what node can store.
    SeqToLargeForNode,

    /// Index larger than sequence length
    IndexLargerThanSeq,
}

} // verus!
