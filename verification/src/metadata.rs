use vstd::prelude::*;

use crate::chunk::{chunk_views, joined_data, Chunk};
use crate::hash::sha256;
use crate::hash::hash_file;

verus! {

/// What a receiver needs to know of a file before its chunks arrive.
#[derive(Debug, Clone, PartialEq)]
pub struct FileMeta {
    pub file_hash: crate::hash::Hash,
    pub chunk_size: usize,
    pub total_chunks: u64,
    pub file_size: u64,
}

impl FileMeta {
    /// Describes a file by its bytes, the chunk size used and the chunks it was split into.
    pub fn new(file_bytes: &[u8], chunk_size: usize, chunks: &[Chunk]) -> (meta: Self)
        ensures
            meta.file_hash.0@ == sha256(joined_data(chunk_views(chunks@))),
            meta.chunk_size == chunk_size,
            meta.total_chunks == chunks@.len(),
            meta.file_size == file_bytes@.len(),
    {
        Self {
            file_hash: hash_file(chunks),
            chunk_size,
            total_chunks: chunks.len() as u64,
            file_size: file_bytes.len() as u64,
        }
    }
}

} // verus!
