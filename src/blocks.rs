//! Backward traversal of a byte stream in fixed-size blocks.
use vstd::prelude::*;

verus! {

/// Granularity of backward reads, in bytes.
pub const BLOCK_SIZE: u64 = 65536;

/// Number of blocks that cover `size` bytes: `ceil(size / BLOCK_SIZE)`.
pub open spec fn block_count(size: int) -> int {
    (size + BLOCK_SIZE - 1) / (BLOCK_SIZE as int)
}

/// Offset one past the last byte of block `k` (block 0 is nearest the end).
pub open spec fn block_end(size: int, k: int) -> int {
    size - k * BLOCK_SIZE
}

/// Offset of the first byte of block `k`. The block nearest the start of the
/// stream is shorter when `size` is not a multiple of `BLOCK_SIZE`, and a full
/// block when it is.
pub open spec fn block_start(size: int, k: int) -> int {
    if k + 1 >= block_count(size) {
        0
    } else {
        size - (k + 1) * BLOCK_SIZE
    }
}

/// The bytes of block `k` of `data`.
pub open spec fn block_bytes(data: Seq<u8>, k: int) -> Seq<u8> {
    data.subrange(block_start(data.len() as int, k), block_end(data.len() as int, k))
}

/// Blocks `block_count - 1` down to `k`, laid end to end in stream order.
pub open spec fn blocks_from(data: Seq<u8>, k: nat) -> Seq<u8>
    decreases block_count(data.len() as int) - k,
{
    if k >= block_count(data.len() as int) {
        seq![]
    } else {
        blocks_from(data, k + 1) + block_bytes(data, k as int)
    }
}

proof fn lemma_block_bounds(size: int, k: int)
    requires
        0 <= size,
        0 <= k < block_count(size),
    ensures
        0 <= block_start(size, k) < block_end(size, k) <= size,
        block_end(size, k) - block_start(size, k) <= BLOCK_SIZE,
        k + 1 < block_count(size) ==> block_start(size, k) == block_end(size, k + 1),
{
    assert(k * BLOCK_SIZE + BLOCK_SIZE <= block_count(size) * BLOCK_SIZE) by (nonlinear_arith)
        requires k < block_count(size);
    assert(block_count(size) * BLOCK_SIZE <= size + BLOCK_SIZE - 1) by (nonlinear_arith)
        requires block_count(size) == (size + BLOCK_SIZE - 1) / (BLOCK_SIZE as int);
    assert((k + 1) * BLOCK_SIZE == k * BLOCK_SIZE + BLOCK_SIZE) by (nonlinear_arith);
    if k + 1 >= block_count(size) {
        assert(block_count(size) * BLOCK_SIZE + BLOCK_SIZE > size) by (nonlinear_arith)
            requires block_count(size) == (size + BLOCK_SIZE - 1) / (BLOCK_SIZE as int);
        assert(k * BLOCK_SIZE + BLOCK_SIZE >= block_count(size) * BLOCK_SIZE) by (nonlinear_arith)
            requires k + 1 >= block_count(size);
    }
}

/// Reassembling every block in stream order gives back the whole stream:
/// the blocks tile it exactly, with no gap and no overlap, also when its size
/// is a multiple of `BLOCK_SIZE`.
pub proof fn lemma_blocks_reassemble(data: Seq<u8>)
    ensures
        blocks_from(data, 0) == data,
{
    let size = data.len() as int;
    if block_count(size) == 0 {
        assert(data =~= Seq::<u8>::empty());
    } else {
        lemma_blocks_from_suffix(data, 0);
        assert(data.subrange(0, size) =~= data);
    }
}

proof fn lemma_blocks_from_suffix(data: Seq<u8>, k: nat)
    requires
        k < block_count(data.len() as int),
    ensures
        blocks_from(data, k) == data.subrange(0, block_end(data.len() as int, k as int)),
    decreases block_count(data.len() as int) - k,
{
    let size = data.len() as int;
    lemma_block_bounds(size, k as int);
    if k + 1 < block_count(size) {
        lemma_blocks_from_suffix(data, k + 1);
        lemma_block_bounds(size, k + 1 as int);
        assert(blocks_from(data, k) =~= data.subrange(0, block_end(size, k as int)));
    } else {
        assert(blocks_from(data, k + 1) == Seq::<u8>::empty());
        assert(blocks_from(data, k) =~= data.subrange(0, block_end(size, k as int)));
    }
}

/// A block to read: `len` bytes from offset `offset`.
#[derive(Debug, Clone, Copy, PartialEq, Eq, Structural)]
pub struct BlockSpan {
    pub offset: u64,
    pub len: u64,
}

/// Walks a stream of `size` bytes block by block, from the block nearest its
/// end to the block nearest its start, keeping the cursor that a seekable
/// file would have: each step moves it back by the block's length, to where
/// the block is read forward from and where the reader seeks back to.
pub struct ReverseChunks {
    size: u64,
    max_blocks_to_read: u64,
    block_idx: u64,
    pos: u64,
}

impl ReverseChunks {
    /// Size of the stream.
    pub closed spec fn size(&self) -> int {
        self.size as int
    }

    /// Index of the next block to produce.
    pub closed spec fn index(&self) -> int {
        self.block_idx as int
    }

    /// Cursor position: the start of the last block produced (the end of
    /// the stream before the first one).
    pub closed spec fn cursor(&self) -> int {
        self.pos as int
    }

    pub closed spec fn wf(&self) -> bool {
        &&& self.max_blocks_to_read as int == block_count(self.size as int)
        &&& self.block_idx <= self.max_blocks_to_read
        &&& self.pos as int == if self.block_idx == self.max_blocks_to_read {
            0
        } else {
            block_end(self.size as int, self.block_idx as int)
        }
    }

    /// Starts at the end of a stream of `size` bytes and computes how many
    /// blocks cover it.
    pub fn new(size: u64) -> (r: ReverseChunks)
        ensures
            r.wf(),
            r.size() == size,
            r.index() == 0,
            r.cursor() == size,
            r.index() <= block_count(size as int),
    {
        let max_blocks_to_read = size / BLOCK_SIZE + if size % BLOCK_SIZE == 0 { 0 } else { 1 };
        assert(max_blocks_to_read as int == block_count(size as int)) by (nonlinear_arith)
            requires
                max_blocks_to_read as int == size / BLOCK_SIZE + if size % BLOCK_SIZE == 0 { 0int } else { 1int },
                size >= 0,
        ;
        ReverseChunks { size, max_blocks_to_read, block_idx: 0, pos: size }
    }

    /// The cursor position.
    pub fn position(&self) -> (r: u64)
        ensures
            r as int == self.cursor(),
    {
        self.pos
    }

    /// The next block towards the start of the stream, or `None` once every
    /// block has been produced; the cursor is left at the start of the block.
    pub fn next(&mut self) -> (r: Option<BlockSpan>)
        requires
            old(self).wf(),
        ensures
            final(self).wf(),
            final(self).size() == old(self).size(),
            final(self).index() <= block_count(final(self).size()),
            r is None ==> final(self).cursor() == 0,
            old(self).index() >= block_count(old(self).size()) ==> r is None && *final(self)
                == *old(self),
            old(self).index() < block_count(old(self).size()) ==> {
                &&& r matches Some(b)
                &&& b.offset == block_start(old(self).size(), old(self).index())
                &&& b.offset + b.len == block_end(old(self).size(), old(self).index())
                &&& b.offset + b.len == old(self).cursor()
                &&& 0 < b.len <= BLOCK_SIZE
                &&& final(self).index() == old(self).index() + 1
                &&& final(self).cursor() == b.offset
            },
    {
        if self.block_idx >= self.max_blocks_to_read {
            return None;
        }
        proof {
            lemma_block_bounds(self.size as int, self.block_idx as int);
        }
        let block_size: u64 = if self.block_idx == self.max_blocks_to_read - 1 {
            self.pos
        } else {
            BLOCK_SIZE
        };
        let offset = self.pos - block_size;
        self.pos = offset;
        self.block_idx = self.block_idx + 1;
        proof {
            if self.block_idx < self.max_blocks_to_read {
                lemma_block_bounds(self.size as int, (self.block_idx - 1) as int);
            }
        }
        Some(BlockSpan { offset, len: block_size })
    }
}

/// The bytes of `file` from offset `from` up to offset `to`.
pub fn read_span(file: &[u8], from: u64, to: u64) -> (r: Vec<u8>)
    requires
        from <= to <= file@.len(),
    ensures
        r@ == file@.subrange(from as int, to as int),
{
    let mut r: Vec<u8> = Vec::new();
    let mut k: u64 = from;
    while k < to
        invariant
            from <= k <= to <= file@.len(),
            r@ == file@.subrange(from as int, k as int),
        decreases to - k,
    {
        r.push(file[k as usize]);
        k = k + 1;
        assert(r@ =~= file@.subrange(from as int, k as int));
    }
    r
}

} // verus!
