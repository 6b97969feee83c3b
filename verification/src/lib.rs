//! A verified DNS protocol engine: the wire codec (message encoding and
//! decoding with domain-name compression) and the transaction layer that
//! turns a raw transport into a demultiplexed request/response service,
//! with retry and validation decorators layered over the same contract.

use vstd::prelude::*;

pub mod codec_laws;
pub mod compress;
pub mod decode;
pub mod encode;
pub mod error;
pub mod ident;
pub mod message;
pub mod mux;
pub mod name;
pub mod retry;
pub mod validate;
pub mod wire;

verus! {

/// The largest value a section count may take on the wire.
pub const MAX_SECTION_COUNT: usize = 0xFFFF;

} // verus!
