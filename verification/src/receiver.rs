use vstd::prelude::*;
use vstd::arithmetic::power2::pow2;
use vstd::std_specs::iter::IteratorSpec;

use std::collections::HashMap;

use crate::chunk::{Chunk, ChunkView};
use crate::config::Config;
use crate::metadata::FileMeta;
use crate::protocol::NetMessage;
use crate::reassemble::{
    law_reassembly_ignores_order, reassemble_and_verify, rearranges, reassembly, resplits, verified_reassembly,
    ReassembleError,
};

verus! {

broadcast use vstd::std_specs::hash::group_hash_axioms;

/// Retransmission bookkeeping for one chunk that has not arrived yet.
#[derive(Debug)]
pub struct PendingChunk {
    /// When the chunk was last requested, in nanoseconds on the receiver's clock.
    pub last_request: Option<u64>,
    pub attempts: u32,
}

impl Default for PendingChunk {
    fn default() -> (p: Self)
        ensures
            p.last_request is None,
            p.attempts == 0,
    {
        PendingChunk { last_request: None, attempts: 0 }
    }
}

/// What the receiver knows so far: the file's metadata, the chunks received
/// (keyed by index) and the retransmission state of the chunks still missing.
pub struct ReceiverState {
    pub meta: Option<FileMeta>,
    pub chunks: HashMap<u64, Chunk>,
    pub pending: HashMap<u64, PendingChunk>,
}

impl ReceiverState {
    /// A receiver that knows nothing yet.
    pub fn new() -> (s: Self)
        ensures
            s.meta is None,
            s.chunks@ == Map::<u64, Chunk>::empty(),
            s.pending@ == Map::<u64, PendingChunk>::empty(),
    {
        Self { meta: None, chunks: HashMap::new(), pending: HashMap::new() }
    }
}

/// The metadata known after a message: the metadata it carries, if any.
pub open spec fn meta_after_message(meta: Option<FileMeta>, msg: NetMessage) -> Option<FileMeta> {
    match msg {
        NetMessage::FileMeta(m) => Some(m),
        _ => meta,
    }
}

/// The chunks held after a message: a chunk it carries is stored under its index.
pub open spec fn chunks_after_message(chunks: Map<u64, Chunk>, msg: NetMessage) -> Map<u64, Chunk> {
    match msg {
        NetMessage::Chunk(c) => chunks.insert(c.index, c),
        _ => chunks,
    }
}

/// The bookkeeping after a message: a chunk it carries is no longer pending.
pub open spec fn pending_after_message(pending: Map<u64, PendingChunk>, msg: NetMessage) -> Map<
    u64,
    PendingChunk,
> {
    match msg {
        NetMessage::Chunk(c) => pending.remove(c.index),
        _ => pending,
    }
}

impl ReceiverState {
    /// Takes in a message from the sender: metadata is recorded, a chunk is stored
    /// under its index and is no longer pending, a request is ignored.
    pub fn apply_message(&mut self, msg: NetMessage)
        ensures
            final(self).meta == meta_after_message(old(self).meta, msg),
            final(self).chunks@ == chunks_after_message(old(self).chunks@, msg),
            final(self).pending@ == pending_after_message(old(self).pending@, msg),
    {
        match msg {
            NetMessage::FileMeta(meta) => {
                self.meta = Some(meta);
            },
            NetMessage::Chunk(chunk) => {
                self.pending.remove(&chunk.index);
                self.chunks.insert(chunk.index, chunk);
            },
            NetMessage::RequestChunk { .. } => {},
        }
    }
}

impl Default for ReceiverState {
    fn default() -> (s: Self)
        ensures
            s.meta is None,
            s.chunks@ == Map::<u64, Chunk>::empty(),
            s.pending@ == Map::<u64, PendingChunk>::empty(),
    {
        Self::new()
    }
}

/// How many chunks are recorded as pending with at least `max` attempts.
pub open spec fn exhausted_count(pending: Map<u64, PendingChunk>, max: u32) -> nat {
    pending.dom().filter(|k: u64| pending[k].attempts >= max).len()
}

/// The receiver gives up: metadata is known, some chunks are still outstanding,
/// and at least as many pending chunks have used up their attempts.
pub open spec fn attempts_exhausted(
    meta: Option<FileMeta>,
    chunks: Map<u64, Chunk>,
    pending: Map<u64, PendingChunk>,
    cfg: Config,
) -> bool {
    match meta {
        None => false,
        Some(m) => {
            let outstanding = (m.total_chunks as usize) - chunks.len();
            outstanding != 0 && exhausted_count(pending, cfg.max_retries) >= outstanding
        },
    }
}

/// The count of outstanding chunks does not go below zero.
pub open spec fn outstanding_defined(meta: Option<FileMeta>, chunks: Map<u64, Chunk>) -> bool {
    meta matches Some(m) ==> chunks.len() <= m.total_chunks as usize
}

/// The key at position `i` of a duplicate-free listing is not among the keys before it,
/// and the keys up to it are those before it and it.
proof fn lemma_fresh_key(keys: Seq<u64>, i: int)
    requires
        keys.no_duplicates(),
        0 <= i < keys.len(),
    ensures
        !keys.take(i).contains(keys[i]),
        keys.take(i + 1) == keys.take(i).push(keys[i]),
{
    if keys.take(i).contains(keys[i]) {
        let j = choose|j: int| 0 <= j < i && keys.take(i)[j] == keys[i];
        assert(keys[j] == keys[i]);
    }
    assert(keys.take(i + 1) =~= keys.take(i).push(keys[i]));
}

/// Whether every chunk still missing has run out of retries.
pub fn all_attempts_exhausted(state: &ReceiverState, cfg: &Config) -> (r: bool)
    requires
        outstanding_defined(state.meta, state.chunks@),
    ensures
        r == attempts_exhausted(state.meta, state.chunks@, state.pending@, *cfg),
{
    let total = match &state.meta {
        Some(m) => m.total_chunks,
        None => {
            return false;
        },
    };
    let outstanding = total as usize - state.chunks.len();
    if outstanding == 0 {
        return false;
    }
    let max = cfg.max_retries;
    let ghost pending = state.pending@;
    let ghost pred = |k: u64| pending[k].attempts >= max;
    let ghost mut counted: Set<u64> = Set::empty();
    let mut count: usize = 0;
    // The number of entries fits a `usize`.
    let _entries = state.pending.len();
    let ghost keys = vstd::std_specs::hash::spec_keys_iter(&state.pending).remaining().unref();
    for k in it: state.pending.keys()
        invariant
            it.seq().unref() == keys,
            keys.no_duplicates(),
            keys.to_set() == pending.dom(),
            keys.len() == pending.dom().len(),
            pending == state.pending@,
            pred == (|k: u64| pending[k].attempts >= max),
            pending.dom().len() <= usize::MAX,
            counted.finite(),
            count == counted.len(),
            count <= it.index(),
            forall|x: u64| #[trigger] counted.contains(x) <==> (keys.take(it.index() as int).contains(x) && pred(x)),
    {
        let ghost i = it.index();
        let ghost prefix = keys.take(i as int);
        let ghost old_counted = counted;
        proof {
            lemma_fresh_key(keys, i as int);
        }
        let p = state.pending.get(k).unwrap();
        if p.attempts >= max {
            proof {
                counted = counted.insert(*k);
            }
            count = count + 1;
        }
        assert forall|x: u64| #[trigger] counted.contains(x) <==> (keys.take(i + 1).contains(x) && pred(x)) by {
            vstd::seq_lib::lemma_seq_contains_after_push(prefix, *k, x);
        }
    }
    proof {
        assert(keys.take(keys.len() as int) =~= keys);
        assert forall|x: u64| #[trigger] counted.contains(x) <==> pending.dom().filter(pred).contains(x) by {
            if keys.contains(x) {
                assert(keys.to_set().contains(x));
            }
            if pending.dom().contains(x) {
                assert(keys.to_set().contains(x));
            }
        }
        assert(counted =~= pending.dom().filter(pred));
    }
    count >= outstanding
}

/// How long to wait, in nanoseconds, after a request before asking again: the
/// retry delay (given in milliseconds), doubled for each attempt made, at most five times.
pub open spec fn backoff_ns(retry_after_ms: u64, attempts: u32) -> int {
    retry_after_ms * 1_000_000 * pow2(if attempts < 5 { attempts as nat } else { 5 })
}

/// Time passed from `then` to `now`, or zero if `now` is earlier.
pub open spec fn elapsed_ns(now: u64, then: u64) -> int {
    if now >= then {
        now - then
    } else {
        0
    }
}

/// A chunk never requested is due; one requested before is due once its backoff has passed.
pub open spec fn request_due(entry: PendingChunk, now: u64, retry_after_ms: u64) -> bool {
    match entry.last_request {
        None => true,
        Some(t) => elapsed_ns(now, t) >= backoff_ns(retry_after_ms, entry.attempts),
    }
}

/// The chunk is requested now: it is due and has attempts left.
pub open spec fn should_request(entry: PendingChunk, now: u64, cfg: Config) -> bool {
    request_due(entry, now, cfg.retry_after_ms) && entry.attempts < cfg.max_retries
}

/// The bookkeeping of a missing chunk after this round of requests.
pub open spec fn entry_after_round(entry: PendingChunk, now: u64, cfg: Config) -> PendingChunk {
    if should_request(entry, now, cfg) {
        PendingChunk { last_request: Some(now), attempts: (entry.attempts + 1) as u32 }
    } else {
        entry
    }
}

/// The bookkeeping of chunk `k`, fresh if there is none yet.
pub open spec fn pending_or_default(pending: Map<u64, PendingChunk>, k: u64) -> PendingChunk {
    if pending.contains_key(k) {
        pending[k]
    } else {
        PendingChunk { last_request: None, attempts: 0 }
    }
}

/// Chunk `k` belongs to the file and has not been received.
pub open spec fn is_missing(chunks: Map<u64, Chunk>, total: u64, k: u64) -> bool {
    k < total && !chunks.contains_key(k)
}

/// The bookkeeping after a round of requests over the indices below `upto`:
/// every missing one has an entry, updated as `entry_after_round` says.
pub open spec fn pending_after_round(
    pending: Map<u64, PendingChunk>,
    chunks: Map<u64, Chunk>,
    total: u64,
    now: u64,
    cfg: Config,
    upto: int,
) -> Map<u64, PendingChunk> {
    Map::new(
        |k: u64| pending.contains_key(k) || (k < upto && is_missing(chunks, total, k)),
        |k: u64|
            if k < upto && is_missing(chunks, total, k) {
                entry_after_round(pending_or_default(pending, k), now, cfg)
            } else {
                pending[k]
            },
    )
}

/// The missing indices below `upto` that are requested in this round, ascending.
pub open spec fn requested_indices(
    pending: Map<u64, PendingChunk>,
    chunks: Map<u64, Chunk>,
    total: u64,
    now: u64,
    cfg: Config,
    upto: int,
) -> Seq<u64> {
    Seq::new(upto as nat, |k: int| k as u64).filter(
        |k: u64| is_missing(chunks, total, k) && should_request(pending_or_default(pending, k), now, cfg),
    )
}

fn backoff_elapsed(entry: &PendingChunk, now: u64, retry_after_ms: u64) -> (due: bool)
    ensures
        due == request_due(*entry, now, retry_after_ms),
{
    match entry.last_request {
        None => true,
        Some(t) => {
            let shift: u32 = if entry.attempts < 5 {
                entry.attempts
            } else {
                5
            };
            let factor: u32 = 1u32 << shift;
            proof {
                vstd::arithmetic::power2::lemma2_to64();
                assert(pow2(shift as nat) <= 32) by {
                    if shift == 0 {
                    } else if shift == 1 {
                    } else if shift == 2 {
                    } else if shift == 3 {
                    } else if shift == 4 {
                    } else {
                    }
                }
                vstd::bits::lemma_u32_shl_is_mul(1u32, shift);
            }
            let elapsed: u64 = if now >= t {
                now - t
            } else {
                0
            };
            assert(retry_after_ms as u128 * 1_000_000 <= u64::MAX * 1_000_000) by (nonlinear_arith);
            assert(retry_after_ms as u128 * 1_000_000 * factor as u128 <= u64::MAX * 1_000_000 * 32) by (nonlinear_arith)
                requires
                    factor <= 32,
            ;
            elapsed as u128 >= retry_after_ms as u128 * 1_000_000 * factor as u128
        },
    }
}

impl ReceiverState {
    /// Makes sure every missing chunk has bookkeeping and picks, in ascending
    /// order, the missing chunks to request now; their bookkeeping records the
    /// request. `now` is the time in nanoseconds on the receiver's clock.
    pub fn request_missing(&mut self, now: u64, cfg: &Config) -> (requests: Vec<u64>)
        ensures
            final(self).meta == old(self).meta,
            final(self).chunks@ == old(self).chunks@,
            match old(self).meta {
                None => {
                    &&& final(self).pending@ == old(self).pending@
                    &&& requests@ == Seq::<u64>::empty()
                },
                Some(m) => {
                    &&& final(self).pending@ == pending_after_round(
                        old(self).pending@,
                        old(self).chunks@,
                        m.total_chunks,
                        now,
                        *cfg,
                        m.total_chunks as int,
                    )
                    &&& requests@ == requested_indices(
                        old(self).pending@,
                        old(self).chunks@,
                        m.total_chunks,
                        now,
                        *cfg,
                        m.total_chunks as int,
                    )
                },
            },
    {
        let total_chunks = match &self.meta {
            Some(m) => m.total_chunks,
            None => {
                let requests: Vec<u64> = Vec::new();
                return requests;
            },
        };
        let ghost pending0 = self.pending@;
        let ghost chunks0 = self.chunks@;
        let ghost pred = |k: u64|
            is_missing(chunks0, total_chunks, k) && should_request(pending_or_default(pending0, k), now, *cfg);
        let mut requests: Vec<u64> = Vec::new();
        let mut index: u64 = 0;
        while index < total_chunks
            invariant
                self.meta == old(self).meta,
                old(self).meta matches Some(m) && m.total_chunks == total_chunks,
                pending0 == old(self).pending@,
                chunks0 == old(self).chunks@,
                self.chunks@ == chunks0,
                index <= total_chunks,
                pred == (|k: u64|
                    is_missing(chunks0, total_chunks, k) && should_request(pending_or_default(pending0, k), now, *cfg)),
                self.pending@ == pending_after_round(pending0, chunks0, total_chunks, now, *cfg, index as int),
                requests@ == Seq::new(index as nat, |k: int| k as u64).filter(pred),
            decreases total_chunks - index,
        {
            let ghost before = self.pending@;
            assert(Seq::new((index + 1) as nat, |k: int| k as u64) =~= Seq::new(index as nat, |k: int| k as u64).push(index));
            proof {
                Seq::new(index as nat, |k: int| k as u64).lemma_filter_push(index, pred);
            }
            if self.chunks.contains_key(&index) {
                assert(self.pending@ =~= pending_after_round(pending0, chunks0, total_chunks, now, *cfg, index + 1));
                index = index + 1;
                continue;
            }
            let entry = match self.pending.get(&index) {
                Some(e) => PendingChunk { last_request: e.last_request, attempts: e.attempts },
                None => PendingChunk::default(),
            };
            assert(entry == pending_or_default(pending0, index));
            let due = backoff_elapsed(&entry, now, cfg.retry_after_ms);
            let updated = if !due {
                entry
            } else if entry.attempts >= cfg.max_retries {
                entry
            } else {
                requests.push(index);
                PendingChunk { last_request: Some(now), attempts: entry.attempts + 1 }
            };
            self.pending.insert(index, updated);
            assert(self.pending@ =~= pending_after_round(pending0, chunks0, total_chunks, now, *cfg, index + 1));
            index = index + 1;
        }
        requests
    }
}

/// `keys` lists the keys of `chunks`, each once.
pub open spec fn lists_keys(keys: Seq<u64>, chunks: Map<u64, Chunk>) -> bool {
    keys.no_duplicates() && keys.to_set() == chunks.dom()
}

/// The chunks held, listed in some order (reassembly does not depend on which).
pub open spec fn chunk_listing(chunks: Map<u64, Chunk>) -> Seq<ChunkView> {
    let keys = choose|keys: Seq<u64>| lists_keys(keys, chunks);
    keys.map_values(|k: u64| chunks[k]@)
}

/// What an attempt at reassembly gives: nothing before the metadata and as
/// many chunks as it announces have arrived, then the verified reassembly.
pub open spec fn reassembly_attempt(meta: Option<FileMeta>, chunks: Map<u64, Chunk>) -> Result<
    Option<Seq<u8>>,
    ReassembleError,
> {
    match meta {
        None => Ok(None),
        Some(m) => if chunks.len() != (m.total_chunks as usize) {
            Ok(None)
        } else {
            match verified_reassembly(m, chunk_listing(chunks)) {
                Ok(data) => Ok(Some(data)),
                Err(e) => Err(e),
            }
        },
    }
}

/// The attempt at reassembly does not split with a chunk size of zero.
pub open spec fn reassembly_attempt_defined(meta: Option<FileMeta>, chunks: Map<u64, Chunk>) -> bool {
    match meta {
        None => true,
        Some(m) => chunks.len() == (m.total_chunks as usize) && resplits(m, chunk_listing(chunks)) ==> m.chunk_size > 0,
    }
}

/// Any two listings of the chunks held reassemble alike.
pub(crate) proof fn lemma_listing_order(chunks: Map<u64, Chunk>, keys: Seq<u64>)
    requires
        lists_keys(keys, chunks),
    ensures
        reassembly(keys.map_values(|k: u64| chunks[k]@)) == reassembly(chunk_listing(chunks)),
{
    let keys2 = choose|keys2: Seq<u64>| lists_keys(keys2, chunks);
    assert(lists_keys(keys2, chunks));
    keys.unique_seq_to_set();
    keys2.unique_seq_to_set();
    let n = keys.len() as int;
    let cs = keys2.map_values(|k: u64| chunks[k]@);
    let other = keys.map_values(|k: u64| chunks[k]@);
    let perm = Seq::new(n as nat, |i: int| keys2.index_of(keys[i]));
    let inv = Seq::new(n as nat, |a: int| keys.index_of(keys2[a]));
    assert forall|i: int| 0 <= i < n implies 0 <= #[trigger] perm[i] < n && inv[perm[i]] == i && other[i] == cs[perm[i]] by {
        assert(keys.to_set().contains(keys[i]));
        assert(keys2.contains(keys[i]));
        let p = perm[i];
        assert(0 <= p < n && keys2[p] == keys[i]);
        let q = inv[p];
        assert(0 <= q < n && keys[q] == keys2[p]);
    }
    assert forall|a: int| 0 <= a < n implies 0 <= #[trigger] inv[a] < n && perm[inv[a]] == a by {
        assert(keys2.to_set().contains(keys2[a]));
        assert(keys.contains(keys2[a]));
        let q = inv[a];
        assert(0 <= q < n && keys[q] == keys2[a]);
        let p = perm[q];
        assert(0 <= p < n && keys2[p] == keys[q]);
    }
    assert(rearranges(cs, other, perm, inv));
    law_reassembly_ignores_order(cs, other, perm, inv);
}

/// Reassembles and verifies the file once the metadata is known and as many
/// chunks as it announces have arrived; `None` until then.
pub fn try_reassemble(state: &ReceiverState) -> (res: Result<Option<Vec<u8>>, ReassembleError>)
    requires
        reassembly_attempt_defined(state.meta, state.chunks@),
    ensures
        match res {
            Ok(Some(data)) => reassembly_attempt(state.meta, state.chunks@) == Ok::<Option<Seq<u8>>, ReassembleError>(Some(data@)),
            Ok(None) => reassembly_attempt(state.meta, state.chunks@) == Ok::<Option<Seq<u8>>, ReassembleError>(None),
            Err(e) => reassembly_attempt(state.meta, state.chunks@) == Err::<Option<Seq<u8>>, ReassembleError>(e),
        },
{
    let meta = match &state.meta {
        Some(m) => m,
        None => {
            return Ok(None);
        },
    };
    if state.chunks.len() != meta.total_chunks as usize {
        return Ok(None);
    }
    let ghost held = state.chunks@;
    let ghost keys = vstd::std_specs::hash::spec_keys_iter(&state.chunks).remaining().unref();
    let mut chunks: Vec<Chunk> = Vec::new();
    for k in it: state.chunks.keys()
        invariant
            it.seq().unref() == keys,
            lists_keys(keys, held),
            held == state.chunks@,
            chunks@.len() == it.index(),
            forall|j: int| 0 <= j < it.index() ==> #[trigger] chunks@[j]@ == held[keys[j]]@,
    {
        let c = state.chunks.get(k).unwrap();
        chunks.push(Chunk { index: c.index, data: vstd::slice::slice_to_vec(c.data.as_slice()) });
    }
    proof {
        assert(crate::chunk::chunk_views(chunks@) =~= keys.map_values(|k: u64| held[k]@));
        lemma_listing_order(held, keys);
    }
    match reassemble_and_verify(meta, chunks) {
        Ok(data) => Ok(Some(data)),
        Err(e) => Err(e),
    }
}

/// A round of requests never takes a chunk's attempts beyond `max_retries`:
/// bookkeeping within the limit stays within it.
pub proof fn law_round_keeps_attempts_bounded(
    pending: Map<u64, PendingChunk>,
    chunks: Map<u64, Chunk>,
    total: u64,
    now: u64,
    cfg: Config,
)
    requires
        forall|k: u64| #[trigger] pending.contains_key(k) ==> pending[k].attempts <= cfg.max_retries,
    ensures
        forall|k: u64|
            #[trigger] pending_after_round(pending, chunks, total, now, cfg, total as int).contains_key(k)
                ==> pending_after_round(pending, chunks, total, now, cfg, total as int)[k].attempts
                <= cfg.max_retries,
{
}

/// A round of requests asks only for chunks that are missing, each once, in
/// ascending order, and every chunk it asks for has attempts left; afterwards
/// each of them records the request.
pub proof fn law_requests_are_missing_chunks(
    pending: Map<u64, PendingChunk>,
    chunks: Map<u64, Chunk>,
    total: u64,
    now: u64,
    cfg: Config,
)
    ensures
        ({
            let r = requested_indices(pending, chunks, total, now, cfg, total as int);
            let after = pending_after_round(pending, chunks, total, now, cfg, total as int);
            &&& forall|i: int|
                0 <= i < r.len() ==> {
                    &&& is_missing(chunks, total, #[trigger] r[i])
                    &&& pending_or_default(pending, r[i]).attempts < cfg.max_retries
                    &&& after[r[i]] == (PendingChunk {
                        last_request: Some(now),
                        attempts: (pending_or_default(pending, r[i]).attempts + 1) as u32,
                    })
                }
            &&& forall|i: int, j: int| 0 <= i < j < r.len() ==> #[trigger] r[i] < #[trigger] r[j]
        }),
{
    let all = Seq::new(total as nat, |k: int| k as u64);
    let pred = |k: u64| is_missing(chunks, total, k) && should_request(pending_or_default(pending, k), now, cfg);
    lemma_filter_ascending(all, pred, total as int);
}

/// Filtering the ascending indices below `n` keeps them ascending and keeps only what passes.
proof fn lemma_filter_ascending(all: Seq<u64>, pred: spec_fn(u64) -> bool, n: int)
    requires
        0 <= n <= u64::MAX + 1,
        all == Seq::new(n as nat, |k: int| k as u64),
    ensures
        forall|i: int| 0 <= i < all.filter(pred).len() ==> pred(#[trigger] all.filter(pred)[i]) && all.filter(pred)[i] < n,
        forall|i: int, j: int| 0 <= i < j < all.filter(pred).len() ==> #[trigger] all.filter(pred)[i] < #[trigger] all.filter(pred)[j],
    decreases n,
{
    reveal(Seq::filter);
    if n > 0 {
        let prev = Seq::new((n - 1) as nat, |k: int| k as u64);
        assert(all.drop_last() =~= prev);
        lemma_filter_ascending(prev, pred, n - 1);
        let last = all.last();
        assert(last == n - 1);
        let f = prev.filter(pred);
        if pred(last) {
            assert(all.filter(pred) == f.push(last));
        } else {
            assert(all.filter(pred) == f);
        }
    }
}

/// The receiver gives up exactly when metadata is known, `k > 0` chunks it
/// announces are still outstanding, and at least `k` pending chunks have used
/// up their attempts; it never gives up without metadata or with nothing outstanding.
pub proof fn law_give_up_when_outstanding_exhausted(
    meta: Option<FileMeta>,
    chunks: Map<u64, Chunk>,
    pending: Map<u64, PendingChunk>,
    cfg: Config,
)
    ensures
        meta is None ==> !attempts_exhausted(meta, chunks, pending, cfg),
        meta matches Some(m) ==> {
            let k = (m.total_chunks as usize) - chunks.len();
            let spent = pending.dom().filter(|key: u64| pending[key].attempts >= cfg.max_retries).len();
            &&& k == 0 ==> !attempts_exhausted(meta, chunks, pending, cfg)
            &&& k > 0 && spent >= k ==> attempts_exhausted(meta, chunks, pending, cfg)
            &&& k > 0 && spent < k ==> !attempts_exhausted(meta, chunks, pending, cfg)
        },
{
    if let Some(m) = meta {
        assert(pending.dom().filter(|key: u64| pending[key].attempts >= cfg.max_retries) =~= pending.dom().filter(
            |k: u64| pending[k].attempts >= cfg.max_retries,
        ));
    }
}

/// Taking in a message: metadata replaces the metadata and leaves the chunks and
/// their bookkeeping alone; a chunk is held under its index (the others stay as
/// they were) and is no longer pending; a request changes nothing.
pub proof fn law_message_effects(
    meta: Option<FileMeta>,
    chunks: Map<u64, Chunk>,
    pending: Map<u64, PendingChunk>,
    msg: NetMessage,
)
    ensures
        msg matches NetMessage::FileMeta(m) ==> {
            &&& meta_after_message(meta, msg) == Some(m)
            &&& chunks_after_message(chunks, msg) == chunks
            &&& pending_after_message(pending, msg) == pending
        },
        msg matches NetMessage::Chunk(c) ==> {
            &&& meta_after_message(meta, msg) == meta
            &&& chunks_after_message(chunks, msg).contains_key(c.index)
            &&& chunks_after_message(chunks, msg)[c.index] == c
            &&& forall|k: u64| k != c.index ==> (#[trigger] chunks_after_message(chunks, msg).contains_key(k)
                == chunks.contains_key(k)) && (chunks.contains_key(k) ==> chunks_after_message(chunks, msg)[k]
                == chunks[k])
            &&& !pending_after_message(pending, msg).contains_key(c.index)
            &&& forall|k: u64| k != c.index ==> (#[trigger] pending_after_message(pending, msg).contains_key(k)
                == pending.contains_key(k)) && (pending.contains_key(k) ==> pending_after_message(pending, msg)[k]
                == pending[k])
        },
        msg is RequestChunk ==> {
            &&& meta_after_message(meta, msg) == meta
            &&& chunks_after_message(chunks, msg) == chunks
            &&& pending_after_message(pending, msg) == pending
        },
{
}

/// The wait after a request starts at the retry delay (in nanoseconds) and
/// doubles with each attempt, five times, then stays put.
pub proof fn law_backoff_doubles(retry_after_ms: u64, attempts: u32)
    ensures
        backoff_ns(retry_after_ms, 0) == retry_after_ms * 1_000_000,
        attempts < 5 ==> backoff_ns(retry_after_ms, (attempts + 1) as u32) == 2 * backoff_ns(retry_after_ms, attempts),
        attempts >= 5 ==> backoff_ns(retry_after_ms, attempts) == 32 * (retry_after_ms * 1_000_000),
{
    vstd::arithmetic::power2::lemma2_to64();
    let r = retry_after_ms * 1_000_000;
    if attempts < 5 {
        vstd::arithmetic::power2::lemma_pow2_adds(attempts as nat, 1);
        assert(pow2((attempts + 1) as nat) == pow2(attempts as nat) * 2);
        assert(r * pow2((attempts + 1) as nat) == 2 * (r * pow2(attempts as nat))) by (nonlinear_arith)
            requires
                pow2((attempts + 1) as nat) == pow2(attempts as nat) * 2,
        ;
    }
    assert(r * pow2(5) == 32 * r);
    assert(r * pow2(0) == r);
}

/// A pending chunk that was requested is due again exactly when at least its
/// backoff has passed since that request; one never requested is always due.
pub proof fn law_request_due_after_backoff(entry: PendingChunk, now: u64, retry_after_ms: u64)
    ensures
        entry.last_request is None ==> request_due(entry, now, retry_after_ms),
        entry.last_request matches Some(t) ==> (request_due(entry, now, retry_after_ms) <==> (now >= t
            && now - t >= backoff_ns(retry_after_ms, entry.attempts)) || (now < t && backoff_ns(
            retry_after_ms,
            entry.attempts,
        ) == 0)),
{
    law_backoff_doubles(retry_after_ms, entry.attempts);
    vstd::arithmetic::power2::lemma2_to64();
    assert(backoff_ns(retry_after_ms, entry.attempts) >= 0) by (nonlinear_arith)
        requires
            backoff_ns(retry_after_ms, entry.attempts) == retry_after_ms * 1_000_000 * pow2(
                if entry.attempts < 5 { entry.attempts as nat } else { 5 },
            ),
    ;
}

/// A round of requests asks for chunk `k` exactly when `k` is below the
/// announced total, not held, has used fewer than `max_retries` attempts, and
/// was never requested or was last requested at least its backoff ago (no time
/// counts as passed when the clock reads earlier than that request). A
/// requested chunk's bookkeeping records the request and one more attempt;
/// every other missing chunk keeps its bookkeeping, or gets fresh bookkeeping if
/// it had none; bookkeeping of other chunks is untouched.
pub proof fn law_request_round_meaning(
    pending: Map<u64, PendingChunk>,
    chunks: Map<u64, Chunk>,
    total: u64,
    now: u64,
    cfg: Config,
    k: u64,
)
    ensures
        ({
            let r = requested_indices(pending, chunks, total, now, cfg, total as int);
            let after = pending_after_round(pending, chunks, total, now, cfg, total as int);
            let attempts = if pending.contains_key(k) { pending[k].attempts } else { 0 };
            let due = if pending.contains_key(k) {
                match pending[k].last_request {
                    None => true,
                    Some(t) => (if now >= t { now - t } else { 0 }) >= backoff_ns(cfg.retry_after_ms, attempts),
                }
            } else {
                true
            };
            let asked = k < total && !chunks.contains_key(k) && attempts < cfg.max_retries && due;
            &&& r.contains(k) == asked
            &&& after.contains_key(k) == (pending.contains_key(k) || (k < total && !chunks.contains_key(k)))
            &&& asked ==> after[k] == (PendingChunk { last_request: Some(now), attempts: (attempts + 1) as u32 })
            &&& !asked && pending.contains_key(k) ==> after[k] == pending[k]
            &&& !asked && !pending.contains_key(k) && after.contains_key(k) ==> after[k] == (PendingChunk {
                last_request: None,
                attempts: 0,
            })
        }),
{
    let all = Seq::new(total as nat, |i: int| i as u64);
    let pred = |x: u64| is_missing(chunks, total, x) && should_request(pending_or_default(pending, x), now, cfg);
    all.filter_lemma(pred);
    if all.filter(pred).contains(k) {
        all.lemma_filter_contains_rev(pred, k);
        let i = choose|i: int| 0 <= i < all.filter(pred).len() && all.filter(pred)[i] == k;
        assert(pred(all.filter(pred)[i]));
    }
    if k < total && pred(k) {
        assert(all[k as int] == k);
    }
    let r = requested_indices(pending, chunks, total, now, cfg, total as int);
    let attempts = if pending.contains_key(k) { pending[k].attempts } else { 0 };
    let due = if pending.contains_key(k) {
        match pending[k].last_request {
            None => true,
            Some(t) => (if now >= t { now - t } else { 0 }) >= backoff_ns(cfg.retry_after_ms, attempts),
        }
    } else {
        true
    };
    assert(r == all.filter(pred));
    assert(pending_or_default(pending, k).attempts == attempts);
    assert(request_due(pending_or_default(pending, k), now, cfg.retry_after_ms) == due);
    assert(pred(k) == (k < total && !chunks.contains_key(k) && attempts < cfg.max_retries && due));
    assert(r.contains(k) == pred(k));
}

/// Once metadata is known and as many chunks as it announces are held, the
/// attempt at reassembly is the verified reassembly of the held chunks listed
/// in any order, each once.
pub proof fn law_attempt_over_any_listing(m: FileMeta, chunks: Map<u64, Chunk>, keys: Seq<u64>)
    requires
        chunks.len() == (m.total_chunks as usize),
        keys.no_duplicates(),
        keys.to_set() == chunks.dom(),
    ensures
        reassembly_attempt(Some(m), chunks) == match verified_reassembly(m, keys.map_values(|k: u64| chunks[k]@)) {
            Ok(data) => Ok::<Option<Seq<u8>>, ReassembleError>(Some(data)),
            Err(e) => Err(e),
        },
        forall|c: Map<u64, Chunk>| c.len() != (m.total_chunks as usize) ==> #[trigger] reassembly_attempt(Some(m), c)
            == Ok::<Option<Seq<u8>>, ReassembleError>(None),
        forall|c: Map<u64, Chunk>| #[trigger] reassembly_attempt(None, c) == Ok::<Option<Seq<u8>>, ReassembleError>(None),
{
    lemma_listing_order(chunks, keys);
}

/// How a step of the receiver ends.
#[derive(Debug)]
pub enum ReceiverOutcome {
    /// Keep listening.
    Continue,
    /// The file is complete and verified: these are its bytes, to be written out.
    Finished(Vec<u8>),
    /// All chunks arrived but reassembly or verification failed.
    Failed(ReassembleError),
    /// Every missing chunk has run out of retries.
    RetriesExhausted,
}

/// What the receiver does after a message: request these chunks (in this
/// order), then end as `outcome` says.
#[derive(Debug)]
pub struct ReceiverStep {
    pub requests: Vec<u64>,
    pub outcome: ReceiverOutcome,
}

/// A step on this message panics nowhere: no split with a chunk size of zero, and
/// never more chunks held than announced while the file is incomplete.
pub open spec fn step_defined(meta: Option<FileMeta>, chunks: Map<u64, Chunk>, msg: NetMessage) -> bool {
    let m1 = meta_after_message(meta, msg);
    let c1 = chunks_after_message(chunks, msg);
    reassembly_attempt_defined(m1, c1) && outstanding_defined(m1, c1)
}

/// The outcome of a step given the reassembly attempt and whether retries are exhausted.
pub open spec fn step_outcome(
    outcome: ReceiverOutcome,
    attempt: Result<Option<Seq<u8>>, ReassembleError>,
    exhausted: bool,
) -> bool {
    match attempt {
        Ok(Some(data)) => outcome matches ReceiverOutcome::Finished(d) && d@ == data,
        Err(e) => outcome == ReceiverOutcome::Failed(e),
        Ok(None) => if exhausted {
            outcome is RetriesExhausted
        } else {
            outcome is Continue
        },
    }
}

/// One turn of the receiver on a message that arrived at `now` (nanoseconds on
/// the receiver's clock): take the message in, pick the chunks to request, then
/// finish with the file, fail, give up, or go on listening.
pub fn receiver_step(state: &mut ReceiverState, msg: NetMessage, now: u64, cfg: &Config) -> (step: ReceiverStep)
    requires
        step_defined(old(state).meta, old(state).chunks@, msg),
    ensures
        final(state).meta == meta_after_message(old(state).meta, msg),
        final(state).chunks@ == chunks_after_message(old(state).chunks@, msg),
        ({
            let m1 = meta_after_message(old(state).meta, msg);
            let c1 = chunks_after_message(old(state).chunks@, msg);
            let p1 = pending_after_message(old(state).pending@, msg);
            match m1 {
                None => final(state).pending@ == p1 && step.requests@ == Seq::<u64>::empty(),
                Some(m) => {
                    &&& final(state).pending@ == pending_after_round(p1, c1, m.total_chunks, now, *cfg, m.total_chunks as int)
                    &&& step.requests@ == requested_indices(p1, c1, m.total_chunks, now, *cfg, m.total_chunks as int)
                },
            }
        }),
        step_outcome(
            step.outcome,
            reassembly_attempt(final(state).meta, final(state).chunks@),
            attempts_exhausted(final(state).meta, final(state).chunks@, final(state).pending@, *cfg),
        ),
{
    state.apply_message(msg);
    let requests = state.request_missing(now, cfg);
    match try_reassemble(state) {
        Ok(Some(data)) => ReceiverStep { requests, outcome: ReceiverOutcome::Finished(data) },
        Err(e) => ReceiverStep { requests, outcome: ReceiverOutcome::Failed(e) },
        Ok(None) => {
            let outcome = if all_attempts_exhausted(state, cfg) {
                ReceiverOutcome::RetriesExhausted
            } else {
                ReceiverOutcome::Continue
            };
            ReceiverStep { requests, outcome }
        },
    }
}

} // verus!
