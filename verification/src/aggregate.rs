//! Chunk aggregator: fold every line of one byte range into a per-key
//! statistics table, counting the records taken and the malformed lines
//! skipped.

use vstd::prelude::*;
use crate::lines::{
    lemma_lines_concat, lemma_lines_count, lemma_lines_single, lemma_lines_terminated, lines_of,
};
use crate::parse::{
    lemma_parse_value_bound, line_malformed, line_record, parse_line, LineOutcome, NL,
};
use crate::stats::{lemma_stats_merge_wf, stats_one, stats_wf, SStats, VAL_MAX};
use crate::table::{map_merge_one, table_map_wf, table_merge, Table};

verus! {

/// Fold one line into a table: merge in its record, or leave the table
/// unchanged when the line carries none.
pub open spec fn line_apply(m: Map<Seq<u8>, SStats>, line: Seq<u8>) -> Map<Seq<u8>, SStats> {
    match line_record(line) {
        Some(kv) => map_merge_one(m, kv.0, stats_one(kv.1)),
        None => m,
    }
}

/// The table denoted by a sequence of lines.
pub open spec fn table_of(ls: Seq<Seq<u8>>) -> Map<Seq<u8>, SStats>
    decreases ls.len(),
{
    if ls.len() == 0 {
        Map::empty()
    } else {
        line_apply(table_of(ls.drop_last()), ls.last())
    }
}

/// How many of the lines carry a record.
pub open spec fn records_of(ls: Seq<Seq<u8>>) -> nat
    decreases ls.len(),
{
    if ls.len() == 0 {
        0
    } else {
        records_of(ls.drop_last()) + (if line_record(ls.last()) is Some {
            1nat
        } else {
            0nat
        })
    }
}

/// How many of the lines are malformed (skipped, but not comments or
/// empty lines).
pub open spec fn skipped_of(ls: Seq<Seq<u8>>) -> nat
    decreases ls.len(),
{
    if ls.len() == 0 {
        0
    } else {
        skipped_of(ls.drop_last()) + (if line_malformed(ls.last()) {
            1nat
        } else {
            0nat
        })
    }
}

/// At most one record or one skip per line.
pub proof fn lemma_counts_le_lines(ls: Seq<Seq<u8>>)
    ensures
        records_of(ls) + skipped_of(ls) <= ls.len(),
    decreases ls.len(),
{
    if ls.len() > 0 {
        lemma_counts_le_lines(ls.drop_last());
    }
}

/// The table of a sequence of lines is well formed, and no key has
/// observed more records than the lines carry.
pub proof fn lemma_table_of_wf(ls: Seq<Seq<u8>>)
    ensures
        table_map_wf(table_of(ls)),
        forall|k: Seq<u8>| #[trigger]
            table_of(ls).dom().contains(k) ==> table_of(ls)[k].count <= records_of(ls),
    decreases ls.len(),
{
    if ls.len() > 0 {
        let lp = ls.drop_last();
        let x = ls.last();
        lemma_table_of_wf(lp);
        let m = table_of(lp);
        if line_record(x) is Some {
            let kv = line_record(x)->Some_0;
            assert(-(VAL_MAX as int) < kv.1 < VAL_MAX as int) by {
                lemma_parse_value_bound(x.subrange(
                    crate::parse::first_index_of(x, crate::parse::SEMI) + 1,
                    x.len() as int,
                ));
            };
            assert(stats_wf(stats_one(kv.1)));
            if m.dom().contains(kv.0) {
                lemma_stats_merge_wf(m[kv.0], stats_one(kv.1));
            }
            assert forall|k: Seq<u8>| #[trigger]
                table_of(ls).dom().contains(k) implies table_of(ls)[k].count <= records_of(
                ls,
            ) by {
                if k != kv.0 {
                    assert(table_of(ls)[k] == m[k]);
                }
            };
        }
    }
}

/// Folding lines distributes over concatenation: the table of the whole
/// is the merge of the tables of the parts, and the record and skip
/// counts add.
pub proof fn lemma_table_of_concat(l1: Seq<Seq<u8>>, l2: Seq<Seq<u8>>)
    ensures
        table_of(l1 + l2) == table_merge(table_of(l1), table_of(l2)),
        records_of(l1 + l2) == records_of(l1) + records_of(l2),
        skipped_of(l1 + l2) == skipped_of(l1) + skipped_of(l2),
    decreases l2.len(),
{
    if l2.len() == 0 {
        assert(l1 + l2 =~= l1);
        crate::table::lemma_table_merge_empty(table_of(l1));
    } else {
        let l2p = l2.drop_last();
        let x = l2.last();
        lemma_table_of_concat(l1, l2p);
        assert((l1 + l2).drop_last() =~= l1 + l2p);
        assert((l1 + l2).last() == x);
        if line_record(x) is Some {
            let kv = line_record(x)->Some_0;
            crate::table::lemma_merge_fold_right(table_of(l1), table_of(l2p), kv.0, stats_one(kv.1));
        }
    }
}

/// Aggregate one chunk: read its lines in order and fold every record
/// into a fresh table. Returns the table, the number of records folded,
/// and the number of malformed lines skipped.
pub fn process_chunk(chunk: &[u8]) -> (r: (Table, u64, u64))
    ensures
        r.0.wf(),
        r.0@ == table_of(lines_of(chunk@)),
        r.1 as int == records_of(lines_of(chunk@)),
        r.2 as int == skipped_of(lines_of(chunk@)),
{
    let len = chunk.len();
    let mut table = Table::new();
    let mut records: u64 = 0;
    let mut skipped: u64 = 0;
    let mut pos: usize = 0;
    proof {
        assert(chunk@.subrange(0, 0) =~= Seq::<u8>::empty());
    }
    while pos < len
        invariant
            0 <= pos <= len,
            len == chunk@.len(),
            pos == 0 || pos == len || chunk@[pos as int - 1] == NL,
            table.wf(),
            table@ == table_of(lines_of(chunk@.subrange(0, pos as int))),
            records as int == records_of(lines_of(chunk@.subrange(0, pos as int))),
            skipped as int == skipped_of(lines_of(chunk@.subrange(0, pos as int))),
            records + skipped <= pos,
        decreases len - pos,
    {
        let ghost prefix = chunk@.subrange(0, pos as int);
        // Find the end of the current line.
        let mut j: usize = pos;
        while j < len && chunk[j] != NL
            invariant
                pos <= j <= len,
                len == chunk@.len(),
                forall|x: int| pos <= x < j ==> chunk@[x] != NL,
            decreases len - j,
        {
            j = j + 1;
        }
        let line = &chunk[pos..j];
        let ghost lseq = chunk@.subrange(pos as int, j as int);
        let ghost newpos: int = if j < len {
            j + 1
        } else {
            j as int
        };
        let ghost newprefix = chunk@.subrange(0, newpos);
        proof {
            // The new prefix splits into the old one and the new line.
            if j < len {
                assert(chunk@[j as int] == NL);
                assert(newprefix =~= prefix + (lseq + seq![NL]));
                lemma_lines_concat(prefix, lseq + seq![NL]);
                lemma_lines_terminated(lseq);
            } else {
                assert(newprefix =~= prefix + lseq);
                lemma_lines_concat(prefix, lseq);
                lemma_lines_single(lseq);
            }
            assert(lines_of(newprefix) == lines_of(prefix) + seq![lseq]);
            assert((lines_of(prefix) + seq![lseq]).drop_last() =~= lines_of(prefix));
            assert((lines_of(prefix) + seq![lseq]).last() == lseq);
            // Bounds that keep the counters and the upsert in range.
            lemma_counts_le_lines(lines_of(newprefix));
            lemma_lines_count(newprefix);
            lemma_table_of_wf(lines_of(prefix));
        }
        match parse_line(line) {
            LineOutcome::Record(key, v) => {
                table.upsert(&key, v);
                records = records + 1;
            },
            LineOutcome::Skip => {
            },
            LineOutcome::Malformed => {
                skipped = skipped + 1;
            },
        }
        pos = if j < len {
            j + 1
        } else {
            j
        };
    }
    proof {
        assert(chunk@.subrange(0, len as int) =~= chunk@);
    }
    (table, records, skipped)
}

} // verus!
