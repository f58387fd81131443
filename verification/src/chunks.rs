//! Chunk planner: divide a file's byte span into contiguous,
//! line-aligned, non-empty ranges, one per prospective worker.
//!
//! Each range ends just after a line terminator, so no range splits a
//! record; a range with no terminator near its ideal end (one enormous
//! line, or the file's tail) extends to the end of the file.

use vstd::prelude::*;
use crate::parse::NL;

verus! {

/// A half-open byte range `[start, end)` of the input file.
#[derive(Clone, Copy, PartialEq, Eq, Structural, Debug)]
pub struct ChunkRange {
    pub start: usize,
    pub end: usize,
}

/// The ranges partition `[0, len)`: non-empty, contiguous, in order,
/// first at 0 and last at `len`; an empty file has no ranges.
pub open spec fn chunks_cover(chunks: Seq<ChunkRange>, len: int) -> bool {
    &&& (len == 0 ==> chunks.len() == 0)
    &&& (len > 0 ==> chunks.len() > 0 && chunks[0].start == 0 && chunks.last().end == len)
    &&& forall|i: int|
        0 <= i < chunks.len() ==> (#[trigger] chunks[i]).start < chunks[i].end <= len
    &&& forall|i: int|
        1 <= i < chunks.len() ==> (#[trigger] chunks[i]).start == chunks[i - 1].end
}

/// No range boundary falls inside a line: the byte before each interior
/// boundary is a line terminator.
pub open spec fn chunks_aligned(chunks: Seq<ChunkRange>, data: Seq<u8>) -> bool {
    forall|i: int|
        1 <= i < chunks.len() ==> data[(#[trigger] chunks[i]).start - 1] == NL
}

/// Some byte in `[lo, hi)` is a line terminator.
pub open spec fn has_terminator(data: Seq<u8>, lo: int, hi: int) -> bool {
    exists|j: int| lo <= j < hi && #[trigger] data[j] == NL
}

/// The resolved end of the range that begins at `start`, for ideal chunk
/// size `size`: the position just after the last terminator at or before
/// the proposed end, or the file's end when there is none.
pub open spec fn chunk_end_ok(data: Seq<u8>, size: int, start: int, end: int) -> bool {
    let proposed = vstd::math::min(start + size, data.len() as int);
    if has_terminator(data, start, proposed) {
        &&& start < end <= proposed
        &&& data[end - 1] == NL
        &&& forall|j: int| end <= j < proposed ==> data[j] != NL
    } else {
        end == data.len()
    }
}

/// Plan the ranges for a file of `data.len()` bytes and `parallelism`
/// prospective workers.
pub fn generate_chunks(data: &[u8], parallelism: usize) -> (chunks: Vec<ChunkRange>)
    requires
        parallelism >= 1,
    ensures
        chunks_cover(chunks@, data@.len() as int),
        chunks_aligned(chunks@, data@),
        forall|i: int|
            0 <= i < chunks@.len() ==> chunk_end_ok(
                data@,
                data@.len() as int / parallelism as int,
                (#[trigger] chunks@[i]).start as int,
                chunks@[i].end as int,
            ),
{
    let len = data.len();
    let mut chunks: Vec<ChunkRange> = Vec::new();
    if len == 0 {
        return chunks;
    }
    let chunk_size = len / parallelism;
    let mut start: usize = 0;
    while start < len
        invariant
            len == data@.len(),
            chunk_size == len as int / parallelism as int,
            0 <= start <= len,
            chunks@.len() == 0 ==> start == 0,
            chunks@.len() > 0 ==> chunks@[0].start == 0 && chunks@.last().end == start,
            forall|i: int|
                0 <= i < chunks@.len() ==> (#[trigger] chunks@[i]).start < chunks@[i].end <= len,
            forall|i: int|
                1 <= i < chunks@.len() ==> (#[trigger] chunks@[i]).start == chunks@[i - 1].end,
            forall|i: int|
                1 <= i < chunks@.len() ==> data@[(#[trigger] chunks@[i]).start - 1] == NL,
            chunks@.len() > 0 && start < len ==> data@[start as int - 1] == NL,
            forall|i: int|
                0 <= i < chunks@.len() ==> chunk_end_ok(
                    data@,
                    chunk_size as int,
                    (#[trigger] chunks@[i]).start as int,
                    chunks@[i].end as int,
                ),
        decreases len - start,
    {
        let proposed = if len - start < chunk_size {
            len
        } else {
            start + chunk_size
        };
        let mut b = proposed;
        let mut found = false;
        while b > start && !found
            invariant
                start <= b <= proposed <= len,
                len == data@.len(),
                forall|j: int| b <= j < proposed ==> data@[j] != NL,
                found ==> start < b <= proposed && data@[b as int - 1] == NL,
            decreases (if found { 0int } else { b as int + 1 }),
        {
            if data[b - 1] == NL {
                found = true;
            } else {
                b = b - 1;
            }
        }
        let end = if found {
            b
        } else {
            len
        };
        proof {
            assert(chunk_end_ok(data@, chunk_size as int, start as int, end as int)) by {
                if found {
                    assert(data@[b as int - 1] == NL);
                    assert(has_terminator(data@, start as int, proposed as int));
                } else {
                    if has_terminator(data@, start as int, proposed as int) {
                        let j = choose|j: int|
                            start <= j < proposed && #[trigger] data@[j] == NL;
                        assert(false);
                    }
                }
            };
        }
        let ghost prev = chunks@;
        chunks.push(ChunkRange { start, end });
        proof {
            assert(chunks@.last() == ChunkRange { start, end });
            assert forall|i: int| 0 <= i < chunks@.len() implies (#[trigger] chunks@[i]).start
                < chunks@[i].end <= len by {
                if i < chunks@.len() - 1 {
                    assert(chunks@[i] == prev[i]);
                }
            };
            assert forall|i: int| 1 <= i < chunks@.len() implies (#[trigger] chunks@[i]).start
                == chunks@[i - 1].end by {
                if i < chunks@.len() - 1 {
                    assert(chunks@[i] == prev[i] && chunks@[i - 1] == prev[i - 1]);
                } else if i >= 1 {
                    if prev.len() > 0 {
                        assert(chunks@[i - 1] == prev[i - 1]);
                        assert(prev.last() == prev[i - 1]);
                    }
                }
            };
            assert forall|i: int| 1 <= i < chunks@.len() implies data@[(
            #[trigger] chunks@[i]).start - 1] == NL by {
                if i < chunks@.len() - 1 {
                    assert(chunks@[i] == prev[i]);
                }
            };
            assert forall|i: int| 0 <= i < chunks@.len() implies chunk_end_ok(
                data@,
                chunk_size as int,
                (#[trigger] chunks@[i]).start as int,
                chunks@[i].end as int,
            ) by {
                if i < chunks@.len() - 1 {
                    assert(chunks@[i] == prev[i]);
                }
            };
        }
        start = end;
    }
    chunks
}

} // verus!
