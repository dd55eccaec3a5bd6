use vstd::prelude::*;

use crate::chunk::{chunks_bytes, chunk_views, joined_data, law_split_then_join, split_chunks, Chunk, ChunkView};
use crate::hash::{hash_file, sha256};
use crate::metadata::FileMeta;

verus! {

/// Reasons reassembly may fail. Used by both `reassemble_chunks`
/// and `reassemble_and_verify` so callers can react to specific failures.
#[derive(Debug, PartialEq, Eq, Structural)]
pub enum ReassembleError {
    EmptyInput,
    MissingChunk { expected: u64, found: u64 },
    DuplicateChunk { index: u64 },
    FileHashMismatch,
}

/// Some chunk carries index `j`.
pub open spec fn has_index(cs: Seq<ChunkView>, j: int) -> bool {
    exists|i: int| 0 <= i < cs.len() && #[trigger] cs[i].index == j
}

/// At least two chunks carry index `j`.
pub open spec fn repeats_index(cs: Seq<ChunkView>, j: int) -> bool {
    exists|a: int, b: int|
        0 <= a < b < cs.len() && #[trigger] cs[a].index == j && #[trigger] cs[b].index == j
}

/// Index `j` is carried by exactly one chunk.
pub open spec fn index_once(cs: Seq<ChunkView>, j: int) -> bool {
    has_index(cs, j) && !repeats_index(cs, j)
}

/// The least `k >= j` below the number of chunks that is not carried by exactly
/// one chunk, or the number of chunks if there is none.
pub open spec fn first_irregular_from(cs: Seq<ChunkView>, j: int) -> int
    decreases cs.len() - j,
{
    if j >= cs.len() {
        cs.len() as int
    } else if !index_once(cs, j) {
        j
    } else {
        first_irregular_from(cs, j + 1)
    }
}

/// The least index in `0..n` (for `n` chunks) not carried by exactly one chunk,
/// or `n` when the indices are exactly `0..n`.
pub open spec fn first_irregular(cs: Seq<ChunkView>) -> int {
    first_irregular_from(cs, 0)
}

/// The smallest index greater than `k` that a chunk carries (`u64::MAX` when none does).
pub open spec fn next_index_above(cs: Seq<ChunkView>, k: int) -> u64
    decreases cs.len(),
{
    if cs.len() == 0 {
        u64::MAX
    } else {
        let rest = next_index_above(cs.drop_last(), k);
        let x = cs.last().index;
        if k < x && x < rest {
            x
        } else {
            rest
        }
    }
}

proof fn lemma_next_index_above(cs: Seq<ChunkView>, k: int)
    ensures
        forall|i: int| 0 <= i < cs.len() && #[trigger] cs[i].index > k ==> next_index_above(cs, k) <= cs[i].index,
        next_index_above(cs, k) == u64::MAX || (next_index_above(cs, k) > k && has_index(cs, next_index_above(cs, k) as int)),
    decreases cs.len(),
{
    if cs.len() > 0 {
        let rest = cs.drop_last();
        lemma_next_index_above(rest, k);
        assert forall|i: int| 0 <= i < cs.len() && #[trigger] cs[i].index > k implies next_index_above(cs, k) <= cs[i].index by {
            if i < cs.len() - 1 {
                assert(rest[i] == cs[i]);
            }
        }
        let r = next_index_above(rest, k);
        if r != u64::MAX && next_index_above(cs, k) == r {
            let w = choose|w: int| 0 <= w < rest.len() && #[trigger] rest[w].index == r as int;
            assert(cs[w].index == r);
        }
        if next_index_above(cs, k) != r {
            assert(cs[cs.len() - 1].index == next_index_above(cs, k));
        }
    }
}

/// A position of a chunk carrying index `j`.
pub open spec fn position_of(cs: Seq<ChunkView>, j: int) -> int {
    choose|i: int| 0 <= i < cs.len() && #[trigger] cs[i].index == j
}

/// The payloads of the chunks taken in the order of their indices `0, 1, ...`.
pub open spec fn assembled(cs: Seq<ChunkView>) -> Seq<u8> {
    Seq::new(cs.len(), |j: int| cs[position_of(cs, j)].data).flatten()
}

/// What reassembling the chunks `cs` gives: their payloads in index order when
/// the indices are exactly `0..n`; otherwise the first irregularity met when the
/// chunks are walked in index order.
pub open spec fn reassembly(cs: Seq<ChunkView>) -> Result<Seq<u8>, ReassembleError> {
    if cs.len() == 0 {
        Err(ReassembleError::EmptyInput)
    } else {
        let k = first_irregular(cs);
        if k == cs.len() {
            Ok(assembled(cs))
        } else if repeats_index(cs, k) {
            Err(ReassembleError::DuplicateChunk { index: k as u64 })
        } else {
            Err(ReassembleError::MissingChunk { expected: k as u64, found: next_index_above(cs, k) })
        }
    }
}

proof fn lemma_first_irregular_from(cs: Seq<ChunkView>, j: int, m: int)
    requires
        0 <= j <= m <= cs.len(),
        forall|x: int| j <= x < m ==> #[trigger] index_once(cs, x),
        m < cs.len() ==> !index_once(cs, m),
    ensures
        first_irregular_from(cs, j) == m,
    decreases m - j,
{
    if j < m {
        assert(index_once(cs, j));
        lemma_first_irregular_from(cs, j + 1, m);
    }
}

/// `other` lists the chunks of `cs` in another order: `other[i] == cs[perm[i]]`,
/// where `perm` is a bijection on the positions with inverse `inv`.
pub open spec fn rearranges(cs: Seq<ChunkView>, other: Seq<ChunkView>, perm: Seq<int>, inv: Seq<int>) -> bool {
    &&& other.len() == cs.len()
    &&& perm.len() == cs.len()
    &&& inv.len() == cs.len()
    &&& forall|i: int|
        0 <= i < cs.len() ==> 0 <= #[trigger] perm[i] < cs.len() && inv[perm[i]] == i && other[i] == cs[perm[i]]
    &&& forall|a: int| 0 <= a < cs.len() ==> 0 <= #[trigger] inv[a] < cs.len() && perm[inv[a]] == a
}

proof fn lemma_rearranged_index_facts(cs: Seq<ChunkView>, other: Seq<ChunkView>, perm: Seq<int>, inv: Seq<int>, j: int)
    requires
        rearranges(cs, other, perm, inv),
    ensures
        has_index(other, j) == has_index(cs, j),
        repeats_index(other, j) == repeats_index(cs, j),
        index_once(other, j) == index_once(cs, j),
{
    if has_index(other, j) {
        let i = choose|i: int| 0 <= i < other.len() && #[trigger] other[i].index == j;
        assert(cs[perm[i]].index == j);
    }
    if has_index(cs, j) {
        let a = choose|a: int| 0 <= a < cs.len() && #[trigger] cs[a].index == j;
        assert(other[inv[a]].index == j);
    }
    if repeats_index(other, j) {
        let (a, b) = choose|a: int, b: int|
            0 <= a < b < other.len() && #[trigger] other[a].index == j && #[trigger] other[b].index == j;
        let (pa, pb) = (perm[a], perm[b]);
        assert(pa != pb) by {
            assert(inv[pa] == a && inv[pb] == b);
        }
        assert(cs[pa].index == j && cs[pb].index == j);
        if pa < pb {
            assert(repeats_index(cs, j));
        } else {
            assert(repeats_index(cs, j));
        }
    }
    if repeats_index(cs, j) {
        let (a, b) = choose|a: int, b: int|
            0 <= a < b < cs.len() && #[trigger] cs[a].index == j && #[trigger] cs[b].index == j;
        let (ia, ib) = (inv[a], inv[b]);
        assert(ia != ib) by {
            assert(perm[ia] == a && perm[ib] == b);
        }
        assert(other[ia].index == j && other[ib].index == j);
        if ia < ib {
            assert(repeats_index(other, j));
        } else {
            assert(repeats_index(other, j));
        }
    }
}

proof fn lemma_rearranged_first_irregular(cs: Seq<ChunkView>, other: Seq<ChunkView>, perm: Seq<int>, inv: Seq<int>, j: int)
    requires
        rearranges(cs, other, perm, inv),
    ensures
        first_irregular_from(other, j) == first_irregular_from(cs, j),
    decreases cs.len() - j,
{
    lemma_rearranged_index_facts(cs, other, perm, inv, j);
    if j < cs.len() {
        lemma_rearranged_first_irregular(cs, other, perm, inv, j + 1);
    }
}

/// Reassembly does not depend on the order in which the chunks arrive.
pub proof fn law_reassembly_ignores_order(cs: Seq<ChunkView>, other: Seq<ChunkView>, perm: Seq<int>, inv: Seq<int>)
    requires
        rearranges(cs, other, perm, inv),
    ensures
        reassembly(other) == reassembly(cs),
{
    let n = cs.len() as int;
    lemma_rearranged_first_irregular(cs, other, perm, inv, 0);
    let k = first_irregular(cs);
    lemma_first_irregular_bound(cs, 0);
    if 0 <= k < n {
        lemma_rearranged_index_facts(cs, other, perm, inv, k);
    }
    // The smallest index above `k` is the same in both listings.
    lemma_next_index_above(cs, k);
    lemma_next_index_above(other, k);
    let r1 = next_index_above(cs, k);
    let r2 = next_index_above(other, k);
    if r1 != u64::MAX {
        let a = choose|a: int| 0 <= a < cs.len() && #[trigger] cs[a].index == r1 as int;
        assert(other[inv[a]].index == r1);
    }
    if r2 != u64::MAX {
        let i = choose|i: int| 0 <= i < other.len() && #[trigger] other[i].index == r2 as int;
        assert(cs[perm[i]].index == r2);
    }
    assert(r1 == r2);
    // With every index carried once, both listings assemble the same payloads.
    if k == n {
        assert(assembled(other) == assembled(cs)) by {
        assert forall|j: int| 0 <= j < n implies #[trigger] other[position_of(other, j)].data == cs[position_of(cs, j)].data by {
            lemma_index_once_below(cs, j, n);
            lemma_rearranged_index_facts(cs, other, perm, inv, j);
            let p2 = position_of(other, j);
            let p1 = position_of(cs, j);
            assert(cs[perm[p2]].index == j);
            if perm[p2] != p1 {
                if perm[p2] < p1 {
                    assert(repeats_index(cs, j));
                } else {
                    assert(repeats_index(cs, j));
                }
            }
        }
        assert(Seq::new(other.len(), |j: int| other[position_of(other, j)].data) =~= Seq::new(
            cs.len(),
            |j: int| cs[position_of(cs, j)].data,
        ));
        }
    }
}

/// Before the first irregular index every index is carried exactly once.
proof fn lemma_index_once_below(cs: Seq<ChunkView>, j: int, m: int)
    requires
        0 <= j < m,
        first_irregular_from(cs, 0) == m,
    ensures
        index_once(cs, j),
{
    lemma_first_irregular_walk(cs, 0, j);
}

proof fn lemma_first_irregular_walk(cs: Seq<ChunkView>, from: int, j: int)
    requires
        0 <= from <= j,
        j < first_irregular_from(cs, from),
    ensures
        index_once(cs, j),
    decreases j - from,
{
    if from < j {
        lemma_first_irregular_walk(cs, from + 1, j);
    } else {
        lemma_first_irregular_bound(cs, from);
    }
}

proof fn lemma_first_irregular_bound(cs: Seq<ChunkView>, from: int)
    ensures
        first_irregular_from(cs, from) <= cs.len() || first_irregular_from(cs, from) == from,
        0 <= from <= cs.len() ==> from <= first_irregular_from(cs, from) <= cs.len(),
        0 <= from && first_irregular_from(cs, from) < cs.len() ==> !index_once(cs, first_irregular_from(cs, from)),
    decreases cs.len() - from,
{
    if from < cs.len() && index_once(cs, from) {
        lemma_first_irregular_bound(cs, from + 1);
    }
}

/// Some chunk before position `i` carries index `j`.
spec fn carried_before(cs: Seq<ChunkView>, j: int, i: int) -> bool {
    exists|p: int| 0 <= p < i && #[trigger] cs[p].index == j
}

/// Two chunks before position `i` carry index `j`.
spec fn repeated_before(cs: Seq<ChunkView>, j: int, i: int) -> bool {
    exists|a: int, b: int| 0 <= a < b < i && #[trigger] cs[a].index == j && #[trigger] cs[b].index == j
}

/// The smallest index above `k` that a chunk carries (`u64::MAX` if none does).
fn smallest_index_above(chunks: &Vec<Chunk>, k: u64) -> (r: u64)
    ensures
        r == next_index_above(chunk_views(chunks@), k as int),
{
    let ghost cs = chunk_views(chunks@);
    let n = chunks.len();
    let mut best: u64 = u64::MAX;
    let mut i: usize = 0;
    while i < n
        invariant
            n == chunks@.len(),
            cs == chunk_views(chunks@),
            i <= n,
            best == next_index_above(cs.take(i as int), k as int),
        decreases n - i,
    {
        proof {
            assert(cs.take(i + 1).drop_last() =~= cs.take(i as int));
            assert(cs.take(i + 1).last() == cs[i as int]);
        }
        let x = chunks[i].index;
        if k < x && x < best {
            best = x;
        }
        i = i + 1;
    }
    proof {
        assert(cs.take(n as int) =~= cs);
    }
    best
}

/// Joins chunks back into the original byte stream in index order.
/// Returns an error if any expected index is missing or duplicated.
pub fn reassemble_chunks(chunks: Vec<Chunk>) -> (res: Result<Vec<u8>, ReassembleError>)
    ensures
        match res {
            Ok(data) => reassembly(chunk_views(chunks@)) == Ok::<Seq<u8>, ReassembleError>(data@),
            Err(e) => reassembly(chunk_views(chunks@)) == Err::<Seq<u8>, ReassembleError>(e),
        },
{
    let ghost cs = chunk_views(chunks@);
    let n = chunks.len();
    if n == 0 {
        return Err(ReassembleError::EmptyInput);
    }
    // For each index below `n`: the first position carrying it (`n` if none
    // does), and whether a later position carries it too.
    let mut first: Vec<usize> = Vec::new();
    let mut repeated: Vec<bool> = Vec::new();
    let mut j: usize = 0;
    while j < n
        invariant
            j <= n,
            first@.len() == j,
            repeated@.len() == j,
            forall|q: int| 0 <= q < j ==> first@[q] == n && !repeated@[q],
        decreases n - j,
    {
        first.push(n);
        repeated.push(false);
        j = j + 1;
    }
    let mut i: usize = 0;
    while i < n
        invariant
            n == chunks@.len(),
            cs == chunk_views(chunks@),
            i <= n,
            first@.len() == n,
            repeated@.len() == n,
            forall|j: int| 0 <= j < n ==> (#[trigger] first@[j] == n) == !carried_before(cs, j, i as int),
            forall|j: int|
                0 <= j < n && #[trigger] first@[j] != n ==> first@[j] < i && cs[first@[j] as int].index == j,
            forall|j: int| 0 <= j < n ==> #[trigger] repeated@[j] == repeated_before(cs, j, i as int),
        decreases n - i,
    {
        let idx = chunks[i].index;
        let ghost old_first = first@;
        let ghost old_repeated = repeated@;
        if idx < n as u64 {
            let j = idx as usize;
            if first[j] == n {
                first.set(j, i);
            } else {
                repeated.set(j, true);
            }
        }
        proof {
            assert forall|q: int| 0 <= q < n implies (#[trigger] first@[q] == n) == !carried_before(cs, q, i + 1) by {
                if carried_before(cs, q, i + 1) && q != idx {
                    let p = choose|p: int| 0 <= p < i + 1 && #[trigger] cs[p].index == q;
                    assert(carried_before(cs, q, i as int));
                }
                if carried_before(cs, q, i as int) {
                    let p = choose|p: int| 0 <= p < i && #[trigger] cs[p].index == q;
                    assert(carried_before(cs, q, i + 1));
                }
                if q == idx {
                    assert(cs[i as int].index == q);
                    assert(carried_before(cs, q, i + 1));
                }
            }
            assert forall|q: int| 0 <= q < n implies #[trigger] repeated@[q] == repeated_before(cs, q, i + 1) by {
                if repeated_before(cs, q, i as int) {
                    let (a, b) = choose|a: int, b: int|
                        0 <= a < b < i && #[trigger] cs[a].index == q && #[trigger] cs[b].index == q;
                    assert(repeated_before(cs, q, i + 1));
                }
                if repeated_before(cs, q, i + 1) {
                    let (a, b) = choose|a: int, b: int|
                        0 <= a < b < i + 1 && #[trigger] cs[a].index == q && #[trigger] cs[b].index == q;
                    if b < i {
                        assert(repeated_before(cs, q, i as int));
                    } else {
                        assert(carried_before(cs, q, i as int));
                    }
                }
                if q == idx && old_first[q] != n {
                    let a = old_first[q] as int;
                    assert(cs[a].index == q && cs[i as int].index == q);
                    assert(repeated_before(cs, q, i + 1));
                }
            }
        }
        i = i + 1;
    }
    // Every index below `n` carried exactly once, in turn.
    proof {
        assert forall|j: int| 0 <= j < n implies #[trigger] has_index(cs, j) == (first@[j] != n) && repeats_index(cs, j)
            == repeated@[j] by {
            if has_index(cs, j) {
                let p = choose|p: int| 0 <= p < cs.len() && #[trigger] cs[p].index == j;
                assert(carried_before(cs, j, n as int));
            }
            if carried_before(cs, j, n as int) {
                let p = choose|p: int| 0 <= p < n && #[trigger] cs[p].index == j;
                assert(has_index(cs, j));
            }
            if repeats_index(cs, j) {
                let (a, b) = choose|a: int, b: int|
                    0 <= a < b < cs.len() && #[trigger] cs[a].index == j && #[trigger] cs[b].index == j;
                assert(repeated_before(cs, j, n as int));
            }
            if repeated_before(cs, j, n as int) {
                let (a, b) = choose|a: int, b: int|
                    0 <= a < b < n && #[trigger] cs[a].index == j && #[trigger] cs[b].index == j;
                assert(repeats_index(cs, j));
            }
        }
    }
    let mut k: usize = 0;
    while k < n
        invariant
            n == chunks@.len(),
            cs == chunk_views(chunks@),
            k <= n,
            first@.len() == n,
            repeated@.len() == n,
            forall|j: int| 0 <= j < n ==> #[trigger] has_index(cs, j) == (first@[j] != n) && repeats_index(cs, j) == repeated@[j],
            forall|j: int| 0 <= j < k ==> #[trigger] index_once(cs, j),
        decreases n - k,
    {
        proof {
            assert(has_index(cs, k as int) == (first@[k as int] != n));
            assert(repeats_index(cs, k as int) == repeated@[k as int]);
        }
        if first[k] == n {
            proof {
                lemma_first_irregular_from(cs, 0, k as int);
                assert(!repeats_index(cs, k as int));
            }
            let found = smallest_index_above(&chunks, k as u64);
            return Err(ReassembleError::MissingChunk { expected: k as u64, found });
        }
        if repeated[k] {
            proof {
                lemma_first_irregular_from(cs, 0, k as int);
            }
            return Err(ReassembleError::DuplicateChunk { index: k as u64 });
        }
        k = k + 1;
    }
    proof {
        lemma_first_irregular_from(cs, 0, n as int);
        assert forall|j: int| 0 <= j < n implies #[trigger] first@[j] < n by {
            assert(index_once(cs, j));
            assert(has_index(cs, j));
        }
    }
    // The payloads in index order.
    let ghost datas = Seq::new(n as nat, |j: int| cs[first@[j] as int].data);
    proof {
        assert forall|j: int| 0 <= j < n implies #[trigger] position_of(cs, j) == first@[j] by {
            assert(index_once(cs, j));
            let p = position_of(cs, j);
            assert(cs[first@[j] as int].index == j);
            assert(0 <= p < n && cs[p].index == j);
            let f = first@[j] as int;
            if p < f {
                assert(repeats_index(cs, j));
            } else if f < p {
                assert(repeats_index(cs, j));
            }
        }
        assert(datas =~= Seq::new(cs.len(), |j: int| cs[position_of(cs, j)].data));
    }
    let mut result: Vec<u8> = Vec::new();
    let mut k: usize = 0;
    while k < n
        invariant
            n == chunks@.len(),
            cs == chunk_views(chunks@),
            first@.len() == n,
            forall|j: int| 0 <= j < n ==> #[trigger] first@[j] < n,
            datas == Seq::new(n as nat, |j: int| cs[first@[j] as int].data),
            k <= n,
            result@ == datas.take(k as int).flatten(),
        decreases n - k,
    {
        let mut piece = vstd::slice::slice_to_vec(chunks[first[k]].data.as_slice());
        proof {
            assert(datas.take(k + 1) =~= datas.take(k as int).push(datas[k as int]));
            datas.take(k as int).lemma_flatten_push(datas[k as int]);
        }
        result.append(&mut piece);
        k = k + 1;
    }
    proof {
        assert(datas.take(n as int) =~= datas);
    }
    Ok(result)
}

/// What verified reassembly gives: the reassembled bytes when their length and
/// SHA-256 digest match `meta`, `FileHashMismatch` when either does not, and the
/// reassembly error otherwise.
pub open spec fn verified_reassembly(meta: FileMeta, cs: Seq<ChunkView>) -> Result<Seq<u8>, ReassembleError> {
    match reassembly(cs) {
        Err(e) => Err(e),
        Ok(data) => if data.len() != meta.file_size || sha256(data) != meta.file_hash.0@ {
            Err(ReassembleError::FileHashMismatch)
        } else {
            Ok(data)
        },
    }
}

/// Reassembly succeeded and the length matched, so the bytes are split again
/// with `meta.chunk_size`, which must then not be zero.
pub open spec fn resplits(meta: FileMeta, cs: Seq<ChunkView>) -> bool {
    reassembly(cs) matches Ok(data) && data.len() == meta.file_size
}

/// Reassembles chunks and re-verifies file size and hash against `meta`.
/// Use this when the chunks came from an untrusted source.
pub fn reassemble_and_verify(meta: &FileMeta, chunks: Vec<Chunk>) -> (res: Result<Vec<u8>, ReassembleError>)
    requires
        resplits(*meta, chunk_views(chunks@)) ==> meta.chunk_size > 0,
    ensures
        match res {
            Ok(data) => verified_reassembly(*meta, chunk_views(chunks@)) == Ok::<Seq<u8>, ReassembleError>(data@),
            Err(e) => verified_reassembly(*meta, chunk_views(chunks@)) == Err::<Seq<u8>, ReassembleError>(e),
        },
{
    let ghost cs = chunk_views(chunks@);
    let data = match reassemble_chunks(chunks) {
        Ok(data) => data,
        Err(e) => {
            return Err(e);
        },
    };
    if data.len() as u64 != meta.file_size {
        return Err(ReassembleError::FileHashMismatch);
    }
    let reconstructed_chunks = chunks_bytes(data.as_slice(), meta.chunk_size);
    let file_hash = hash_file(reconstructed_chunks.as_slice());
    proof {
        law_split_then_join(data@, meta.chunk_size as int);
    }
    check_file_hash(meta, data, &file_hash)
}

/// Accepts reassembled bytes when their digest is the one `meta` records.
pub fn check_file_hash(meta: &FileMeta, data: Vec<u8>, digest: &crate::hash::Hash) -> (res: Result<Vec<u8>, ReassembleError>)
    ensures
        match res {
            Ok(d) => d@ == data@ && digest.0@ == meta.file_hash.0@,
            Err(e) => e == ReassembleError::FileHashMismatch && digest.0@ != meta.file_hash.0@,
        },
{
    if *digest != meta.file_hash {
        return Err(ReassembleError::FileHashMismatch);
    }
    Ok(data)
}

/// Reassembling the chunks that a non-empty buffer splits into gives the buffer back.
pub proof fn law_reassembly_of_split(data: Seq<u8>, size: int)
    requires
        size > 0,
        0 < data.len() <= u64::MAX,
    ensures
        reassembly(split_chunks(data, size)) == Ok::<Seq<u8>, ReassembleError>(data),
{
    let cs = split_chunks(data, size);
    let n = cs.len() as int;
    crate::chunk::law_split_piece_sizes(data, size);
    crate::chunk::law_split_then_join(data, size);
    assert forall|j: int| 0 <= j < n implies #[trigger] cs[j].index == j by {
        assert(n <= data.len()) by {
            crate::chunk::lemma_split_len_bound(data, size);
        }
    }
    assert forall|j: int| 0 <= j < n implies #[trigger] index_once(cs, j) by {
        assert(cs[j].index == j);
        if repeats_index(cs, j) {
            let (a, b) = choose|a: int, b: int|
                0 <= a < b < cs.len() && #[trigger] cs[a].index == j && #[trigger] cs[b].index == j;
            assert(cs[a].index == a && cs[b].index == b);
        }
    }
    lemma_first_irregular_from(cs, 0, n);
    assert forall|j: int| 0 <= j < n implies #[trigger] position_of(cs, j) == j by {
        assert(cs[j].index == j);
        let i = position_of(cs, j);
        assert(cs[i].index == i);
    }
    assert(Seq::new(cs.len(), |j: int| cs[position_of(cs, j)].data) =~= cs.map_values(|c: ChunkView| c.data));
}

/// The metadata of a non-empty buffer, verified against the chunks it splits into,
/// accepts them and gives the buffer back.
pub proof fn law_verified_round_trip(data: Seq<u8>, meta: FileMeta)
    requires
        meta.chunk_size > 0,
        0 < data.len() <= u64::MAX,
        meta.file_size == data.len(),
        meta.file_hash.0@ == sha256(joined_data(split_chunks(data, meta.chunk_size as int))),
    ensures
        verified_reassembly(meta, split_chunks(data, meta.chunk_size as int)) == Ok::<Seq<u8>, ReassembleError>(data),
{
    law_reassembly_of_split(data, meta.chunk_size as int);
    law_split_then_join(data, meta.chunk_size as int);
}

/// Whatever verified reassembly accepts has the length and the digest that the metadata records.
pub proof fn law_verified_data_matches_meta(meta: FileMeta, cs: Seq<ChunkView>)
    requires
        verified_reassembly(meta, cs) is Ok,
    ensures
        verified_reassembly(meta, cs)->Ok_0.len() == meta.file_size,
        sha256(verified_reassembly(meta, cs)->Ok_0) == meta.file_hash.0@,
        reassembly(cs) == verified_reassembly(meta, cs),
{
}

/// Verification passes every reassembly error through unchanged; when
/// reassembly succeeds it either accepts those very bytes or reports
/// `FileHashMismatch`.
pub proof fn law_verify_keeps_reassembly_errors(meta: FileMeta, cs: Seq<ChunkView>)
    ensures
        reassembly(cs) matches Err(e) ==> verified_reassembly(meta, cs) == Err::<Seq<u8>, ReassembleError>(e),
        reassembly(cs) matches Ok(d) ==> verified_reassembly(meta, cs) == Ok::<Seq<u8>, ReassembleError>(d)
            || verified_reassembly(meta, cs) == Err::<Seq<u8>, ReassembleError>(ReassembleError::FileHashMismatch),
{
}

/// What a reassembly error means about the chunks: no chunks at all; a
/// duplicate is an index carried by two chunks, with every smaller index carried
/// exactly once; a missing index is carried by no chunk, every smaller one
/// exactly once, and no chunk carries an index strictly between it and the one
/// reported as found. Reassembly never reports a hash mismatch.
pub proof fn law_reassembly_errors_mean(cs: Seq<ChunkView>)
    requires
        cs.len() <= usize::MAX,
    ensures
        reassembly(cs) == Err::<Seq<u8>, ReassembleError>(ReassembleError::EmptyInput) <==> cs.len() == 0,
        reassembly(cs) != Err::<Seq<u8>, ReassembleError>(ReassembleError::FileHashMismatch),
        reassembly(cs) matches Err(ReassembleError::DuplicateChunk { index }) ==> {
            &&& index < cs.len()
            &&& exists|a: int, b: int|
                0 <= a < b < cs.len() && #[trigger] cs[a].index == index && #[trigger] cs[b].index == index
            &&& forall|j: int| 0 <= j < index ==> #[trigger] index_once(cs, j)
        },
        reassembly(cs) matches Err(ReassembleError::MissingChunk { expected, found }) ==> {
            &&& expected < cs.len()
            &&& forall|i: int| 0 <= i < cs.len() ==> #[trigger] cs[i].index != expected
            &&& forall|j: int| 0 <= j < expected ==> #[trigger] index_once(cs, j)
            &&& forall|i: int| 0 <= i < cs.len() && #[trigger] cs[i].index > expected ==> cs[i].index >= found
        },
{
    if cs.len() > 0 {
        let k = first_irregular(cs);
        lemma_first_irregular_bound(cs, 0);
        lemma_next_index_above(cs, k);
        assert forall|j: int| 0 <= j < k implies #[trigger] index_once(cs, j) by {
            lemma_index_once_below(cs, j, k);
        }
        if k < cs.len() && !repeats_index(cs, k) {
            assert(!has_index(cs, k));
            assert forall|i: int| 0 <= i < cs.len() implies #[trigger] cs[i].index != k by {
                if cs[i].index == k {
                    assert(has_index(cs, k));
                }
            }
        }
    }
}

/// Reassembly succeeds exactly when the chunks carry the indices `0..n`, each
/// once, and then gives their payloads in index order.
pub proof fn law_reassembly_success(cs: Seq<ChunkView>)
    ensures
        reassembly(cs) is Ok <==> cs.len() > 0 && forall|j: int| 0 <= j < cs.len() ==> #[trigger] index_once(cs, j),
        reassembly(cs) is Ok ==> reassembly(cs)->Ok_0 == Seq::new(
            cs.len(),
            |j: int| cs[position_of(cs, j)].data,
        ).flatten(),
{
    if cs.len() > 0 {
        let k = first_irregular(cs);
        lemma_first_irregular_bound(cs, 0);
        if k == cs.len() {
            assert forall|j: int| 0 <= j < cs.len() implies #[trigger] index_once(cs, j) by {
                lemma_index_once_below(cs, j, k);
            }
        }
        if forall|j: int| 0 <= j < cs.len() ==> #[trigger] index_once(cs, j) {
            lemma_first_irregular_from(cs, 0, cs.len() as int);
        }
    }
}

} // verus!
