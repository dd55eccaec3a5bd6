use vstd::prelude::*;

use crate::chunk::Chunk;
use crate::metadata::FileMeta;

verus! {

/// Maximum size of a serialized `NetMessage`. Matches the receive buffer
/// used in both the sender and receiver loops.
pub const MAX_DATAGRAM: usize = 4096;

/// What the sender and the receiver say to each other.
#[derive(Debug)]
pub enum NetMessage {
    FileMeta(FileMeta),
    Chunk(Chunk),
    RequestChunk { index: u64 },
}

} // verus!
