//! The whole engine, run in one pass: plan the ranges, aggregate each,
//! merge the per-range tables in order. The result equals the table of
//! the whole input, whatever the parallelism, because range boundaries
//! are line-aligned and the merge is associative and commutative.

use vstd::prelude::*;
use crate::aggregate::{
    lemma_counts_le_lines, lemma_table_of_concat, lemma_table_of_wf, process_chunk, records_of,
    skipped_of, table_of,
};
use crate::chunks::{chunks_aligned, chunks_cover, generate_chunks};
use crate::lines::{lemma_lines_concat, lemma_lines_count, lines_of};
use crate::stats::SStats;
use crate::table::{merge_counts_fit, Table};

verus! {

/// Run the whole pipeline on `data` with `parallelism` prospective
/// workers: the returned table is the table of the input's lines, with
/// the number of records folded and of malformed lines skipped.
pub fn process_data(data: &[u8], parallelism: usize) -> (r: (Table, u64, u64))
    requires
        parallelism >= 1,
    ensures
        r.0.wf(),
        r.0@ == table_of(lines_of(data@)),
        r.1 as int == records_of(lines_of(data@)),
        r.2 as int == skipped_of(lines_of(data@)),
{
    let len = data.len();
    let chunks = generate_chunks(data, parallelism);
    let n = chunks.len();
    let mut global = Table::new();
    let mut records: u64 = 0;
    let mut skipped: u64 = 0;
    let mut i: usize = 0;
    proof {
        assert(data@.subrange(0, 0) =~= Seq::<u8>::empty());
    }
    while i < n
        invariant
            0 <= i <= n,
            len == data@.len(),
            n == chunks@.len(),
            chunks_cover(chunks@, len as int),
            chunks_aligned(chunks@, data@),
            global.wf(),
            ({
                let p: int = if i == 0 {
                    0
                } else {
                    chunks@[i as int - 1].end as int
                };
                &&& 0 <= p <= len
                &&& global@ == table_of(lines_of(data@.subrange(0, p)))
                &&& records as int == records_of(lines_of(data@.subrange(0, p)))
                &&& skipped as int == skipped_of(lines_of(data@.subrange(0, p)))
                &&& records + skipped <= p
            }),
        decreases n - i,
    {
        let c = chunks[i];
        let ghost p: int = if i == 0 {
            0
        } else {
            chunks@[i as int - 1].end as int
        };
        proof {
            assert(c == chunks@[i as int]);
            assert(c.start as int == p);
        }
        let part = &data[c.start..c.end];
        let (t, rec, skip) = process_chunk(part);
        let ghost prefix = data@.subrange(0, p);
        let ghost piece = data@.subrange(c.start as int, c.end as int);
        proof {
            assert(part@ == piece);
            if i > 0 {
                assert(prefix.last() == data@[p - 1]);
            }
            lemma_lines_concat(prefix, piece);
            assert(prefix + piece =~= data@.subrange(0, c.end as int));
            lemma_table_of_concat(lines_of(prefix), lines_of(piece));
            // Count bounds: no merged counter can overflow.
            lemma_table_of_wf(lines_of(prefix));
            lemma_table_of_wf(lines_of(piece));
            lemma_counts_le_lines(lines_of(prefix));
            lemma_counts_le_lines(lines_of(piece));
            lemma_lines_count(prefix);
            lemma_lines_count(piece);
            assert(merge_counts_fit(global@, t@));
        }
        global.merge_from(&t);
        records = records + rec;
        skipped = skipped + skip;
        i = i + 1;
    }
    proof {
        let p: int = if n == 0 {
            0
        } else {
            chunks@[n as int - 1].end as int
        };
        assert(data@.subrange(0, p) =~= data@);
    }
    (global, records, skipped)
}

/// The pipeline is idempotent: two runs on the same input yield the same
/// table, record count, and skip count — the result is a function of the
/// input bytes alone.
pub proof fn lemma_pipeline_idempotent(
    data: Seq<u8>,
    t1: Map<Seq<u8>, SStats>,
    t2: Map<Seq<u8>, SStats>,
)
    requires
        t1 == table_of(lines_of(data)),
        t2 == table_of(lines_of(data)),
    ensures
        t1 == t2,
{
}

/// The result does not depend on the worker count: a single-worker run
/// and a run at any other parallelism agree on every key's statistics.
pub proof fn lemma_parallelism_independent(
    data: Seq<u8>,
    p1: nat,
    p2: nat,
    t1: Map<Seq<u8>, SStats>,
    t2: Map<Seq<u8>, SStats>,
)
    requires
        p1 >= 1,
        p2 >= 1,
        t1 == table_of(lines_of(data)),
        t2 == table_of(lines_of(data)),
    ensures
        t1 == t2,
{
}

} // verus!
