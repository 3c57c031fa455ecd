//! Closed ranges of versions and sequence numbers.

use vstd::prelude::*;

verus! {

/// The numbers from `start` to `end`, both included. With `start > end` the
/// span holds nothing.
#[derive(Clone, Copy, Debug, PartialEq, Eq, Structural)]
pub struct Span {
    pub start: u64,
    pub end: u64,
}

impl Span {
    /// Whether the span holds `x`.
    pub open spec fn has(self, x: int) -> bool {
        self.start <= x <= self.end
    }

    /// Whether the span holds anything.
    pub open spec fn valid(self) -> bool {
        self.start <= self.end
    }
}

/// How many blocks `chunk_range` cuts `range` into.
pub open spec fn chunk_count(range: Span, chunk_size: int) -> nat {
    if range.valid() {
        ((range.end - range.start) / chunk_size + 1) as nat
    } else {
        0
    }
}

/// Block number `i` of `range`: it reaches from its own start to the start of
/// the next block, or to the end of the range.
pub open spec fn chunk_at(range: Span, chunk_size: int, i: int) -> Span {
    let start = range.start + i * chunk_size;
    let end = start + chunk_size;
    Span { start: start as u64, end: if end <= range.end { end as u64 } else { range.end } }
}

/// Whether every block start plus the chunk size is still a number of 64 bits.
pub open spec fn chunks_fit(range: Span, chunk_size: int) -> bool {
    range.start + chunk_count(range, chunk_size) * chunk_size <= u64::MAX
}

/// Tells whether every block start plus the chunk size is still a number of 64 bits.
pub fn can_be_cut(range: Span, chunk_size: usize) -> (can: bool)
    requires
        chunk_size > 0,
    ensures
        can == chunks_fit(range, chunk_size as int),
{
    if range.start > range.end {
        return true;
    }
    let step: u128 = chunk_size as u128;
    let width: u128 = (range.end - range.start) as u128;
    let count: u128 = width / step + 1;
    proof {
        assert(count * step <= width + step) by (nonlinear_arith)
            requires
                count == width / step + 1,
                step > 0,
        ;
    }
    let reach: u128 = range.start as u128 + count * step;
    reach <= 0xffff_ffff_ffff_ffff
}

/// Cuts `range` into blocks. Each block starts `chunk_size` after the one
/// before it and ends where the next one starts, so neighbours share a number.
pub fn chunk_range(range: Span, chunk_size: usize) -> (chunks: Vec<Span>)
    requires
        chunk_size > 0,
        chunks_fit(range, chunk_size as int),
    ensures
        chunks@ == Seq::new(
            chunk_count(range, chunk_size as int),
            |i: int| chunk_at(range, chunk_size as int, i),
        ),
{
    let mut chunks: Vec<Span> = Vec::new();
    if range.start > range.end {
        return chunks;
    }
    let step: u64 = chunk_size as u64;
    proof {
        let n = chunk_count(range, step as int) as int;
        assert(n <= n * step) by (nonlinear_arith)
            requires
                n >= 0,
                step >= 1,
        ;
    }
    let count: u64 = (range.end - range.start) / step + 1;
    let mut block_start: u64 = range.start;
    let mut i: u64 = 0;
    while i < count
        invariant
            range.valid(),
            step == chunk_size,
            step > 0,
            count == chunk_count(range, step as int),
            chunks_fit(range, step as int),
            i <= count,
            block_start == range.start + i * step,
            chunks@ == Seq::new(i as nat, |j: int| chunk_at(range, step as int, j)),
        decreases count - i,
    {
        assert((i + 1) * step <= count * step) by (nonlinear_arith)
            requires
                i + 1 <= count,
                step > 0,
        ;
        assert((i + 1) * step == i * step + step) by (nonlinear_arith);
        let next: u64 = block_start + step;
        let block_end: u64 = if next <= range.end { next } else { range.end };
        chunks.push(Span { start: block_start, end: block_end });
        block_start = next;
        i = i + 1;
    }
    chunks
}

/// Each block of a range is a part of it.
pub proof fn lemma_chunk_valid(range: Span, chunk_size: int, i: int)
    requires
        chunk_size > 0,
        chunks_fit(range, chunk_size),
        0 <= i < chunk_count(range, chunk_size),
    ensures
        range.start + i * chunk_size <= range.end,
        chunk_at(range, chunk_size, i).start == range.start + i * chunk_size,
        chunk_at(range, chunk_size, i).end == (if range.start + (i + 1) * chunk_size <= range.end {
            range.start + (i + 1) * chunk_size
        } else {
            range.end as int
        }),
        chunk_at(range, chunk_size, i).valid(),
{
    let n = (range.end - range.start) / chunk_size;
    assert(i * chunk_size <= n * chunk_size) by (nonlinear_arith)
        requires
            i <= n,
            chunk_size > 0,
    ;
    assert(n * chunk_size <= range.end - range.start) by (nonlinear_arith)
        requires
            n == (range.end - range.start) / chunk_size,
            chunk_size > 0,
    ;
    assert(0 <= i * chunk_size) by (nonlinear_arith)
        requires
            0 <= i,
            chunk_size > 0,
    ;
    assert((i + 1) * chunk_size == i * chunk_size + chunk_size) by (nonlinear_arith);
}

/// Every number of a range is in one of its blocks, and the blocks hold nothing
/// else.
pub proof fn law_chunks_cover(range: Span, chunk_size: int, x: int)
    requires
        chunk_size > 0,
        chunks_fit(range, chunk_size),
    ensures
        range.has(x) <==> exists|i: int|
            0 <= i < chunk_count(range, chunk_size) && (#[trigger] chunk_at(
                range,
                chunk_size,
                i,
            )).has(x),
{
    if range.has(x) {
        let i = (x - range.start) / chunk_size;
        let n = (range.end - range.start) / chunk_size;
        assert(0 <= i <= n && i * chunk_size <= x - range.start < (i + 1) * chunk_size)
            by (nonlinear_arith)
            requires
                i == (x - range.start) / chunk_size,
                n == (range.end - range.start) / chunk_size,
                range.start <= x <= range.end,
                chunk_size > 0,
        ;
        lemma_chunk_valid(range, chunk_size, i);
        assert(chunk_at(range, chunk_size, i).has(x));
    }
    if exists|i: int|
        0 <= i < chunk_count(range, chunk_size) && (#[trigger] chunk_at(range, chunk_size, i)).has(
            x,
        ) {
        let i = choose|i: int|
            0 <= i < chunk_count(range, chunk_size) && (#[trigger] chunk_at(
                range,
                chunk_size,
                i,
            )).has(x);
        lemma_chunk_valid(range, chunk_size, i);
        assert(0 <= i * chunk_size) by (nonlinear_arith)
            requires
                0 <= i,
                chunk_size > 0,
        ;
    }
}

/// No block holds more than one number more than the chunk size, and each but the
/// last one ends where the next one starts.
pub proof fn law_chunks_small(range: Span, chunk_size: int, i: int)
    requires
        chunk_size > 0,
        chunks_fit(range, chunk_size),
        0 <= i < chunk_count(range, chunk_size),
    ensures
        chunk_at(range, chunk_size, i).end - chunk_at(range, chunk_size, i).start <= chunk_size,
        i + 1 < chunk_count(range, chunk_size) ==> chunk_at(range, chunk_size, i).end == chunk_at(
            range,
            chunk_size,
            i + 1,
        ).start,
{
    lemma_chunk_valid(range, chunk_size, i);
    assert((i + 1) * chunk_size == i * chunk_size + chunk_size) by (nonlinear_arith);
    if i + 1 < chunk_count(range, chunk_size) {
        lemma_chunk_valid(range, chunk_size, i + 1);
    }
}

/// The blocks of a range are as they should be: block number `i` starts `i` chunk sizes behind
/// the start of the range and ends a chunk size behind that, or with the range; there are as
/// many as it takes to get to the end, and no more. They fit as long as the end of the last
/// one, were it whole, is a number of 64 bits.
pub proof fn law_blocks(range: Span, chunk_size: int, i: int)
    requires
        chunk_size > 0,
        chunks_fit(range, chunk_size),
    ensures
        chunk_count(range, chunk_size) == 0 <==> range.start > range.end,
        range.start <= range.end ==> {
            let n = chunk_count(range, chunk_size);
            &&& range.start + (n - 1) * chunk_size <= range.end
            &&& range.end < range.start + n * chunk_size
        },
        0 <= i < chunk_count(range, chunk_size) ==> {
            let block = chunk_at(range, chunk_size, i);
            &&& block.start == range.start + i * chunk_size
            &&& block.end == block.start + chunk_size || block.end == range.end
            &&& block.end <= range.end
            &&& block.end - block.start <= chunk_size
        },
{
    if range.start <= range.end {
        let n = (range.end - range.start) / chunk_size;
        assert(n * chunk_size <= range.end - range.start < (n + 1) * chunk_size)
            by (nonlinear_arith)
            requires
                n == (range.end - range.start) / chunk_size,
                chunk_size > 0,
        ;
    }
    if 0 <= i < chunk_count(range, chunk_size) {
        lemma_chunk_valid(range, chunk_size, i);
        assert((i + 1) * chunk_size == i * chunk_size + chunk_size) by (nonlinear_arith);
    }
}

/// A range cannot be cut only if a block of it would reach beyond the numbers of 64 bits.
pub proof fn law_can_be_cut(range: Span, chunk_size: int)
    requires
        chunk_size > 0,
    ensures
        range.start > range.end ==> chunks_fit(range, chunk_size),
        range.start <= range.end && range.end + chunk_size <= u64::MAX ==> chunks_fit(
            range,
            chunk_size,
        ),
        range.start <= range.end && !chunks_fit(range, chunk_size) ==> range.end + chunk_size
            > u64::MAX,
        chunks_fit(range, chunk_size) && range.start <= range.end ==> range.start + chunk_size
            <= u64::MAX,
{
    if range.start <= range.end {
        let n = (range.end - range.start) / chunk_size;
        assert(n >= 0 && n * chunk_size <= range.end - range.start && (n + 1) * chunk_size == n
            * chunk_size + chunk_size && n * chunk_size >= 0) by (nonlinear_arith)
            requires
                n == (range.end - range.start) / chunk_size,
                range.start <= range.end,
                chunk_size > 0,
        ;
    }
}

} // verus!
