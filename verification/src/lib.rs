//! A compact, edit-friendly representation of a biological sequence.
//!
//! The sequence is packed into small fixed-capacity chunks ([`node::Node`]:
//! up to 29 symbols, two bits each, inside one 64-bit word) that can be
//! edited independently at low, bounded cost, and linked into a chain
//! ([`dynseq::DynSeq`]) that represents the full sequence.

pub mod codec;
pub mod dynseq;
pub mod error;
pub mod node;
