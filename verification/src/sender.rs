use vstd::prelude::*;

use rand::seq::SliceRandom;
use std::collections::HashMap;

use crate::chunk::{chunk_views, chunks_bytes, joined_data, split_chunks, Chunk, ChunkView};
use crate::config::Config;
use crate::hash::sha256;
use crate::metadata::FileMeta;
use crate::protocol::NetMessage;

verus! {

broadcast use vstd::std_specs::hash::group_hash_axioms;

/// Puts the items in a random order, by rand's `SliceRandom::shuffle` with the
/// thread-local generator. Stated: the result holds the same items, each as often.
/// Not stated: which order comes out, which rests on chance.
#[verifier::external_body]
fn shuffle_in_place(items: &mut Vec<u64>)
    ensures
        final(items)@.to_multiset() == old(items)@.to_multiset(),
{
    items.shuffle(&mut rand::thread_rng());
}

/// A copy of a chunk.
fn copy_chunk(c: &Chunk) -> (r: Chunk)
    ensures
        r@ == c@,
{
    Chunk { index: c.index, data: vstd::slice::slice_to_vec(c.data.as_slice()) }
}

/// What the sender offers: the file's metadata and its chunks keyed by index.
pub struct SenderStore {
    pub meta: FileMeta,
    pub chunk_store: HashMap<u64, Chunk>,
}

/// The store holds chunk `i` of the split of `data` under key `i`, and nothing else.
pub open spec fn stores_split(store: Map<u64, Chunk>, data: Seq<u8>, size: int) -> bool {
    let cs = split_chunks(data, size);
    &&& forall|k: u64| #[trigger] store.contains_key(k) <==> k < cs.len()
    &&& forall|k: u64| k < cs.len() ==> #[trigger] store[k]@ == cs[k as int]
}

/// Splits the file's bytes with the configured chunk size, describes it, and
/// keys its chunks by index.
pub fn prepare_transfer(data: &[u8], cfg: &Config) -> (s: SenderStore)
    requires
        cfg.chunk_size > 0,
    ensures
        s.meta.file_hash.0@ == sha256(data@),
        s.meta.chunk_size == cfg.chunk_size,
        s.meta.total_chunks == split_chunks(data@, cfg.chunk_size as int).len(),
        s.meta.file_size == data@.len(),
        stores_split(s.chunk_store@, data@, cfg.chunk_size as int),
{
    let chunks = chunks_bytes(data, cfg.chunk_size);
    let meta = FileMeta::new(data, cfg.chunk_size, chunks.as_slice());
    proof {
        crate::chunk::law_split_then_join(data@, cfg.chunk_size as int);
        crate::chunk::lemma_split_len_bound(data@, cfg.chunk_size as int);
    }
    let ghost cs = split_chunks(data@, cfg.chunk_size as int);
    let mut chunk_store: HashMap<u64, Chunk> = HashMap::new();
    let n = chunks.len();
    let mut i: usize = 0;
    while i < n
        invariant
            n == chunks@.len(),
            chunk_views(chunks@) == cs,
            cs == split_chunks(data@, cfg.chunk_size as int),
            cs.len() <= data@.len(),
            i <= n,
            forall|k: u64| #[trigger] chunk_store@.contains_key(k) <==> k < i,
            forall|k: u64| k < i ==> #[trigger] chunk_store@[k]@ == cs[k as int],
        decreases n - i,
    {
        assert(chunks@[i as int]@ == cs[i as int]);
        let c = copy_chunk(&chunks[i]);
        assert(c.index == i as u64);
        let ghost before = chunk_store@;
        chunk_store.insert(c.index, c);
        assert(chunk_store@ == before.insert(i as u64, c));
        i = i + 1;
        assert forall|k: u64| k < i implies #[trigger] chunk_store@[k]@ == cs[k as int] by {
            if k != (i - 1) as u64 {
                assert(before[k]@ == cs[k as int]);
            }
        }
    }
    SenderStore { meta, chunk_store }
}

/// The indices `0..count` in a random order: each exactly once.
pub fn send_order(count: u64) -> (order: Vec<u64>)
    ensures
        order@.to_multiset() == Seq::new(count as nat, |i: int| i as u64).to_multiset(),
        order@.len() == count,
{
    let mut order: Vec<u64> = Vec::new();
    let mut i: u64 = 0;
    while i < count
        invariant
            i <= count,
            order@ == Seq::new(i as nat, |j: int| j as u64),
        decreases count - i,
    {
        order.push(i);
        i = i + 1;
        assert(order@ =~= Seq::new(i as nat, |j: int| j as u64));
    }
    let ghost before = order@;
    shuffle_in_place(&mut order);
    proof {
        vstd::seq_lib::to_multiset_len(order@);
        vstd::seq_lib::to_multiset_len(before);
    }
    order
}

/// The message that carries chunk `index` of the store, if the store holds it.
pub fn chunk_message(store: &SenderStore, index: u64) -> (msg: Option<NetMessage>)
    ensures
        match msg {
            Some(NetMessage::Chunk(c)) => store.chunk_store@.contains_key(index) && c@ == store.chunk_store@[index]@,
            Some(_) => false,
            None => !store.chunk_store@.contains_key(index),
        },
{
    match store.chunk_store.get(&index) {
        Some(c) => Some(NetMessage::Chunk(copy_chunk(c))),
        None => None,
    }
}

/// The sender's answer to a message from the receiver: a requested chunk is
/// sent again if the store holds it; nothing else is answered.
pub fn respond(store: &SenderStore, msg: &NetMessage) -> (reply: Option<NetMessage>)
    ensures
        match *msg {
            NetMessage::RequestChunk { index } => match reply {
                Some(NetMessage::Chunk(c)) => store.chunk_store@.contains_key(index) && c@ == store.chunk_store@[index]@,
                Some(_) => false,
                None => !store.chunk_store@.contains_key(index),
            },
            _ => reply is None,
        },
{
    match msg {
        NetMessage::RequestChunk { index } => chunk_message(store, *index),
        _ => None,
    }
}

/// A receiver holding the metadata that the sender prepared and every chunk in
/// the sender's store (keyed as the sender keys them) finishes with the file's bytes.
pub proof fn law_receiver_rebuilds_sent_file(data: Seq<u8>, meta: FileMeta, chunks: Map<u64, Chunk>)
    requires
        0 < data.len() <= usize::MAX,
        meta.chunk_size > 0,
        meta.file_hash.0@ == sha256(data),
        meta.total_chunks == split_chunks(data, meta.chunk_size as int).len(),
        meta.file_size == data.len(),
        stores_split(chunks, data, meta.chunk_size as int),
    ensures
        crate::receiver::reassembly_attempt(Some(meta), chunks) == Ok::<Option<Seq<u8>>, crate::reassemble::ReassembleError>(
            Some(data),
        ),
{
    let size = meta.chunk_size as int;
    let cs = split_chunks(data, size);
    let n = cs.len();
    crate::chunk::lemma_split_len_bound(data, size);
    let keys = Seq::new(n, |i: int| i as u64);
    assert(keys.no_duplicates());
    assert(keys.to_set() =~= chunks.dom()) by {
        assert forall|k: u64| chunks.dom().contains(k) implies keys.to_set().contains(k) by {
            assert(keys[k as int] == k);
        }
    }
    keys.unique_seq_to_set();
    assert(keys.map_values(|k: u64| chunks[k]@) =~= cs);
    crate::receiver::lemma_listing_order(chunks, keys);
    crate::hash::law_file_hash_is_bytes_hash(data, size);
    crate::reassemble::law_verified_round_trip(data, meta);
}

} // verus!
