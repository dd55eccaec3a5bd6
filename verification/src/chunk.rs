use vstd::prelude::*;

verus! {

/// One numbered piece of a file.
#[derive(Debug, Clone)]
pub struct Chunk {
    pub index: u64,
    pub data: Vec<u8>,
}

/// What a chunk holds, as plain values.
pub struct ChunkView {
    pub index: u64,
    pub data: Seq<u8>,
}

impl View for Chunk {
    type V = ChunkView;

    open spec fn view(&self) -> ChunkView {
        ChunkView { index: self.index, data: self.data@ }
    }
}

/// The views of a sequence of chunks.
pub open spec fn chunk_views(chunks: Seq<Chunk>) -> Seq<ChunkView> {
    chunks.map_values(|c: Chunk| c@)
}

/// The payloads of a sequence of chunks, concatenated in the order given.
pub open spec fn joined_data(chunks: Seq<ChunkView>) -> Seq<u8> {
    chunks.map_values(|c: ChunkView| c.data).flatten()
}

/// How many pieces of at most `size` bytes a buffer of `len` bytes splits into.
pub open spec fn piece_count(len: int, size: int) -> int {
    (len + size - 1) / size
}

/// Where piece `i` of a split into pieces of `size` bytes ends.
pub open spec fn piece_end(len: int, size: int, i: int) -> int {
    if (i + 1) * size <= len {
        (i + 1) * size
    } else {
        len
    }
}

/// Piece `i` of `data` split into pieces of `size` bytes: all are full but the last.
pub open spec fn piece(data: Seq<u8>, size: int, i: int) -> Seq<u8> {
    data.subrange(i * size, piece_end(data.len() as int, size, i))
}

/// The chunks that `data` splits into with pieces of `size` bytes, numbered from 0.
pub open spec fn split_chunks(data: Seq<u8>, size: int) -> Seq<ChunkView> {
    Seq::new(
        piece_count(data.len() as int, size) as nat,
        |i: int| ChunkView { index: i as u64, data: piece(data, size, i) },
    )
}

proof fn lemma_piece_count(len: int, size: int, i: int)
    requires
        size > 0,
        len >= 0,
        i >= 0,
        i * size >= len,
        i == 0 || (i - 1) * size < len,
    ensures
        piece_count(len, size) == i,
{
    if i == 0 {
        vstd::arithmetic::div_mod::lemma_fundamental_div_mod_converse(len + size - 1, size, 0, len + size - 1);
    } else {
        assert((i - 1) * size == i * size - size) by (nonlinear_arith);
        vstd::arithmetic::div_mod::lemma_fundamental_div_mod_converse(
            len + size - 1,
            size,
            i,
            len + size - 1 - i * size,
        );
    }
}

proof fn lemma_piece_count_bounds(len: int, size: int)
    requires
        size > 0,
        len >= 0,
    ensures
        piece_count(len, size) * size >= len,
        piece_count(len, size) >= 0,
        forall|k: int| 0 <= k < piece_count(len, size) ==> #[trigger] (k * size) < len,
{
    let n = piece_count(len, size);
    vstd::arithmetic::div_mod::lemma_fundamental_div_mod(len + size - 1, size);
    vstd::arithmetic::div_mod::lemma_mod_bound(len + size - 1, size);
    let r = (len + size - 1) % size;
    assert(len + size - 1 == size * n + r);
    assert(n * size == size * n) by (nonlinear_arith);
    assert(n >= 0) by (nonlinear_arith)
        requires
            len + size - 1 == size * n + r,
            0 <= r < size,
            size > 0,
            len >= 0,
    ;
    assert forall|k: int| 0 <= k < n implies #[trigger] (k * size) < len by {
        assert(k * size <= (n - 1) * size) by (nonlinear_arith)
            requires
                0 <= k <= n - 1,
                size > 0,
        ;
        assert((n - 1) * size == n * size - size) by (nonlinear_arith);
    }
}

/// The first `k` pieces of a split, joined, are the bytes before the end of piece `k - 1`.
proof fn lemma_joined_prefix(data: Seq<u8>, size: int, k: int)
    requires
        size > 0,
        0 <= k <= piece_count(data.len() as int, size),
    ensures
        split_chunks(data, size).take(k).map_values(|c: ChunkView| c.data).flatten() == data.subrange(
            0,
            if k * size <= data.len() { k * size } else { data.len() as int },
        ),
    decreases k,
{
    let len = data.len() as int;
    let cs = split_chunks(data, size);
    lemma_piece_count_bounds(len, size);
    if k == 0 {
        assert(cs.take(0).map_values(|c: ChunkView| c.data) =~= Seq::<Seq<u8>>::empty());
        assert(data.subrange(0, 0) =~= Seq::<u8>::empty());
    } else {
        lemma_joined_prefix(data, size, k - 1);
        let prev = cs.take(k - 1).map_values(|c: ChunkView| c.data);
        assert(cs.take(k).map_values(|c: ChunkView| c.data) =~= prev.push(cs[k - 1].data));
        prev.lemma_flatten_push(cs[k - 1].data);
        assert((k - 1) * size < len);
        assert(k * size == (k - 1) * size + size) by (nonlinear_arith);
        assert(data.subrange(0, (k - 1) * size) + data.subrange((k - 1) * size, piece_end(len, size, k - 1))
            =~= data.subrange(0, piece_end(len, size, k - 1)));
    }
}

/// Joining the chunks that a buffer splits into gives the buffer back.
pub proof fn law_split_then_join(data: Seq<u8>, size: int)
    requires
        size > 0,
    ensures
        joined_data(split_chunks(data, size)) == data,
{
    let n = piece_count(data.len() as int, size);
    lemma_piece_count_bounds(data.len() as int, size);
    lemma_joined_prefix(data, size, n);
    assert(split_chunks(data, size).take(n) =~= split_chunks(data, size));
    assert(data.subrange(0, data.len() as int) =~= data);
}

/// Every chunk of a split holds at least one byte and at most `size` bytes,
/// all but the last hold exactly `size`, chunk `i` is numbered `i` and starts at
/// byte `i * size`, and there are none for an empty buffer.
pub proof fn law_split_piece_sizes(data: Seq<u8>, size: int)
    requires
        size > 0,
        data.len() <= u64::MAX,
    ensures
        forall|i: int|
            0 <= i < split_chunks(data, size).len() ==> 0 < #[trigger] split_chunks(data, size)[i].data.len() <= size,
        forall|i: int|
            0 <= i < split_chunks(data, size).len() - 1 ==> #[trigger] split_chunks(data, size)[i].data.len() == size,
        forall|i: int|
            0 <= i < split_chunks(data, size).len() ==> {
                &&& #[trigger] split_chunks(data, size)[i].index == i
                &&& split_chunks(data, size)[i].data == data.subrange(
                    i * size,
                    i * size + split_chunks(data, size)[i].data.len(),
                )
            },
        data.len() == 0 <==> split_chunks(data, size).len() == 0,
{
    let len = data.len() as int;
    let n = piece_count(len, size);
    lemma_piece_count_bounds(len, size);
    lemma_split_len_bound(data, size);
    assert forall|i: int| 0 <= i < split_chunks(data, size).len() implies 0 < #[trigger] split_chunks(data, size)[i].data.len() <= size by {
        assert(i * size < len);
        assert((i + 1) * size == i * size + size) by (nonlinear_arith);
    }
    assert forall|i: int| 0 <= i < split_chunks(data, size).len() - 1 implies #[trigger] split_chunks(data, size)[i].data.len() == size by {
        assert((i + 1) * size < len);
        assert((i + 1) * size == i * size + size) by (nonlinear_arith);
    }
    assert forall|i: int| 0 <= i < split_chunks(data, size).len() implies {
        &&& #[trigger] split_chunks(data, size)[i].index == i
        &&& split_chunks(data, size)[i].data == data.subrange(i * size, i * size + split_chunks(data, size)[i].data.len())
    } by {
        assert(i * size < len);
        assert((i + 1) * size == i * size + size) by (nonlinear_arith);
        assert(i <= u64::MAX);
    }
    if len > 0 {
        if n == 0 {
            assert(n * size == 0);
        }
    } else {
        assert(piece_count(len, size) == 0) by {
            vstd::arithmetic::div_mod::lemma_fundamental_div_mod_converse(size - 1, size, 0, size - 1);
        }
    }
}

/// A split never has more chunks than the buffer has bytes.
pub(crate) proof fn lemma_split_len_bound(data: Seq<u8>, size: int)
    requires
        size > 0,
    ensures
        split_chunks(data, size).len() <= data.len(),
{
    let len = data.len() as int;
    let n = piece_count(len, size);
    lemma_piece_count_bounds(len, size);
    if n > len {
        assert(len * size >= len) by (nonlinear_arith)
            requires
                size > 0,
                len >= 0,
        ;
        assert(0 <= len < n);
        assert(len * size < len);
    }
}

/// Splits `data` into consecutive chunks of `chunk_size` bytes (the last may be
/// shorter), numbered from 0.
pub fn chunks_bytes(data: &[u8], chunk_size: usize) -> (res: Vec<Chunk>)
    requires
        chunk_size > 0,
    ensures
        chunk_views(res@) == split_chunks(data@, chunk_size as int),
{
    let len = data.len();
    let mut out: Vec<Chunk> = Vec::new();
    let mut start: usize = 0;
    let mut i: usize = 0;
    while start < len
        invariant
            len == data@.len(),
            chunk_size > 0,
            out@.len() == i,
            start <= len,
            i <= start,
            start as int == if i * chunk_size <= len { i * chunk_size } else { len as int },
            i > 0 ==> (i - 1) * chunk_size < len,
            forall|j: int|
                0 <= j < i ==> #[trigger] out@[j]@ == (ChunkView {
                    index: j as u64,
                    data: piece(data@, chunk_size as int, j),
                }),
        decreases len - start,
    {
        assert(start == i * chunk_size);
        let end: usize = if len - start > chunk_size {
            start + chunk_size
        } else {
            len
        };
        proof {
            assert((i + 1) * chunk_size == i * chunk_size + chunk_size) by (nonlinear_arith);
        }
        let piece_data = vstd::slice::slice_to_vec(&data[start..end]);
        out.push(Chunk { index: i as u64, data: piece_data });
        start = end;
        i = i + 1;
    }
    proof {
        if i * chunk_size < len {
            assert(start == i * chunk_size);
        }
        lemma_piece_count(len as int, chunk_size as int, i as int);
        assert(chunk_views(out@) =~= split_chunks(data@, chunk_size as int));
    }
    out
}

} // verus!
