use vstd::prelude::*;
use sha2::Digest;
use crate::chunk::{Chunk, ChunkView, chunk_views, joined_data, split_chunks};

verus! {

/// A running SHA-256 computation: sha2's `Sha256` hasher, held in a private
/// field and reached only through the functions below.
#[verifier::external_body]
pub struct Sha256Hasher {
    inner: sha2::Sha256,
}

/// The bytes fed to a running SHA-256 computation since it was started.
pub uninterp spec fn absorbed(h: Sha256Hasher) -> Seq<u8>;

/// The SHA-256 digest of a byte sequence (FIPS 180-4), as sha2 computes it.
pub uninterp spec fn sha256(data: Seq<u8>) -> Seq<u8>;

/// Starts a SHA-256 computation with sha2's `Sha256::new` (`Digest::new`).
/// Claimed: nothing has been fed to it yet.
#[verifier::external_body]
fn hasher_new() -> (h: Sha256Hasher)
    ensures
        absorbed(h) == Seq::<u8>::empty(),
{
    Sha256Hasher { inner: sha2::Sha256::new() }
}

/// Feeds bytes to a running computation with sha2's `Digest::update`.
/// Claimed: the bytes fed so far are the earlier ones followed by `data`.
#[verifier::external_body]
fn hasher_update(h: &mut Sha256Hasher, data: &[u8])
    ensures
        absorbed(*final(h)) == absorbed(*old(h)) + data@,
{
    h.inner.update(data);
}

/// Ends a computation with sha2's `Digest::finalize` and converts the 32-byte
/// output to an array. Claimed: the digest is SHA-256 of all the bytes fed.
#[verifier::external_body]
fn hasher_finalize(h: Sha256Hasher) -> (d: [u8; 32])
    ensures
        d@ == sha256(absorbed(h)),
{
    h.inner.finalize().into()
}

/// SHA-256 digest used to identify and verify files and chunks.
#[derive(Debug, Clone)]
pub struct Hash(pub [u8; 32]);

impl PartialEq for Hash {
    fn eq(&self, other: &Self) -> (r: bool) {
        let mut i: usize = 0;
        while i < 32
            invariant
                i <= 32,
                forall|j: int| 0 <= j < i ==> self.0@[j] == other.0@[j],
            decreases 32 - i,
        {
            if self.0[i] != other.0[i] {
                return false;
            }
            i = i + 1;
        }
        proof {
            assert(self.0@ =~= other.0@);
        }
        true
    }
}

impl vstd::std_specs::cmp::PartialEqSpecImpl for Hash {
    open spec fn obeys_eq_spec() -> bool {
        true
    }

    open spec fn eq_spec(&self, other: &Self) -> bool {
        self.0@ == other.0@
    }
}

impl Eq for Hash {
}

/// Hashes a single byte slice with SHA-256.
pub fn hash_bytes(data: &[u8]) -> (r: Hash)
    ensures
        r.0@ == sha256(data@),
{
    let mut h = hasher_new();
    hasher_update(&mut h, data);
    proof {
        assert(absorbed(h) =~= data@);
    }
    Hash(hasher_finalize(h))
}

/// Hashes the concatenation of chunk payloads in the order they are given.
pub fn hash_file(chunks: &[Chunk]) -> (r: Hash)
    ensures
        r.0@ == sha256(joined_data(chunk_views(chunks@))),
{
    let mut h = hasher_new();
    let n = chunks.len();
    let ghost views = chunk_views(chunks@);
    let mut i: usize = 0;
    while i < n
        invariant
            n == chunks@.len(),
            views == chunk_views(chunks@),
            i <= n,
            absorbed(h) == joined_data(views.take(i as int)),
        decreases n - i,
    {
        hasher_update(&mut h, chunks[i].data.as_slice());
        proof {
            let datas = views.take(i as int).map_values(|c: ChunkView| c.data);
            assert(views.take(i + 1).map_values(|c: ChunkView| c.data) =~= datas.push(views[i as int].data));
            datas.lemma_flatten_push(views[i as int].data);
        }
        i = i + 1;
    }
    proof {
        assert(views.take(n as int) =~= views);
    }
    Hash(hasher_finalize(h))
}

/// Hashing the chunks of a buffer, in order, gives the hash of the buffer,
/// whatever the chunk size.
pub proof fn law_file_hash_is_bytes_hash(data: Seq<u8>, size: int)
    requires
        size > 0,
    ensures
        sha256(joined_data(split_chunks(data, size))) == sha256(data),
{
    crate::chunk::law_split_then_join(data, size);
}

}
