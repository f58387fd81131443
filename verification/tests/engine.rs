use one_brc::aggregate::process_chunk;
use one_brc::chunks::{generate_chunks, ChunkRange};
use one_brc::pipeline::process_data;
use one_brc::stats::{Stats, SCALE};

#[test]
fn three_records_single_worker() {
    let input = b"A;1.0\nB;2.0\nA;3.0\n";
    let (table, records, skipped) = process_data(input, 1);
    assert_eq!(records, 3);
    assert_eq!(skipped, 0);
    assert_eq!(table.len(), 2);
    let a = table.get(b"A").expect("key A present");
    assert_eq!(a.min, SCALE);
    assert_eq!(a.max, 3 * SCALE);
    assert_eq!(a.count, 2);
    assert_eq!(a.mean_scaled(), 2 * SCALE);
    let b = table.get(b"B").expect("key B present");
    assert_eq!(b.min, 2 * SCALE);
    assert_eq!(b.max, 2 * SCALE);
    assert_eq!(b.count, 1);
    assert_eq!(b.mean_scaled(), 2 * SCALE);
}

#[test]
fn comment_line_ignored() {
    let input = b"#note\nA;5.0\n";
    let (table, records, skipped) = process_data(input, 1);
    assert_eq!(records, 1);
    assert_eq!(skipped, 0);
    assert_eq!(table.len(), 1);
    let a = table.get(b"A").expect("key A present");
    assert_eq!(a.count, 1);
    assert_eq!(a.min, 5 * SCALE);
    assert_eq!(a.max, 5 * SCALE);
    assert!(table.get(b"#note").is_none());
}

#[test]
fn empty_input() {
    let chunks = generate_chunks(b"", 4);
    assert_eq!(chunks.len(), 0);
    let (table, records, skipped) = process_data(b"", 4);
    assert_eq!(table.len(), 0);
    assert_eq!(records, 0);
    assert_eq!(skipped, 0);
}

#[test]
fn one_enormous_line() {
    // The one line is far longer than the ideal chunk size: the planner
    // degrades to a single range spanning the whole file.
    let input = b"ABCDEFGH;1.5\n";
    let chunks = generate_chunks(input, 8);
    assert_eq!(chunks.len(), 1);
    assert_eq!(chunks[0], ChunkRange { start: 0, end: input.len() });
    let (table, records, _) = process_data(input, 8);
    assert_eq!(records, 1);
    assert_eq!(table.get(b"ABCDEFGH").unwrap().min, 15_000);
}

#[test]
fn chunk_boundaries_line_aligned() {
    let input = b"A;1.0\nB;2.0\nC;3.0\nD;4.0\n";
    for p in 1..=8 {
        let chunks = generate_chunks(input, p);
        assert!(!chunks.is_empty());
        assert_eq!(chunks[0].start, 0);
        assert_eq!(chunks.last().unwrap().end, input.len());
        for i in 0..chunks.len() {
            assert!(chunks[i].start < chunks[i].end);
            if i > 0 {
                assert_eq!(chunks[i].start, chunks[i - 1].end);
                assert_eq!(input[chunks[i].start - 1], b'\n');
            }
        }
    }
}

#[test]
fn no_trailing_newline() {
    let (table, records, skipped) = process_data(b"A;1.0\nB;2.5", 2);
    assert_eq!(records, 2);
    assert_eq!(skipped, 0);
    assert_eq!(table.get(b"B").unwrap().max, 25_000);
}

#[test]
fn malformed_lines_counted() {
    let (table, records, skipped) = process_data(b"A;1.0\nbad\nB;2.0\nC;x\n", 1);
    assert_eq!(records, 2);
    assert_eq!(skipped, 2);
    assert_eq!(table.len(), 2);
}

fn tables_agree(input: &[u8], p1: usize, p2: usize) {
    let (t1, r1, s1) = process_data(input, p1);
    let (t2, r2, s2) = process_data(input, p2);
    assert_eq!(r1, r2);
    assert_eq!(s1, s2);
    assert_eq!(t1.len(), t2.len());
    for i in 0..t1.len() {
        let (key, stats) = t1.entry_at(i);
        let other = t2.get(key.as_slice()).expect("key present in both");
        assert_eq!(*stats, *other);
    }
}

#[test]
fn single_worker_equals_multi_worker() {
    let input = b"A;1.0\nB;2.0\nA;3.0\nC;-4.5\nB;0.5\nA;2.25\n";
    for p in 2..=10 {
        tables_agree(input, 1, p);
    }
}

#[test]
fn pipeline_runs_identically_twice() {
    let input = b"X;1.0\nY;-2.0\nX;3.5\n";
    tables_agree(input, 3, 3);
}

#[test]
fn merge_is_commutative_on_tables() {
    let (ta, _, _) = process_chunk(b"A;1.0\nB;2.0\n");
    let (tb, _, _) = process_chunk(b"B;4.0\nC;8.0\n");
    let mut ab = process_chunk(b"A;1.0\nB;2.0\n").0;
    assert!(ab.can_merge(&tb));
    ab.merge_from(&tb);
    let mut ba = process_chunk(b"B;4.0\nC;8.0\n").0;
    assert!(ba.can_merge(&ta));
    ba.merge_from(&ta);
    assert_eq!(ab.len(), 3);
    assert_eq!(ba.len(), 3);
    for key in [b"A".as_slice(), b"B".as_slice(), b"C".as_slice()] {
        assert_eq!(*ab.get(key).unwrap(), *ba.get(key).unwrap());
    }
    let b = ab.get(b"B").unwrap();
    assert_eq!(b.count, 2);
    assert_eq!(b.min, 20_000);
    assert_eq!(b.max, 40_000);
    assert_eq!(b.mean_scaled(), 30_000);
}

#[test]
fn merge_groupings_agree() {
    // Folding three per-chunk tables left-to-right or right-to-left
    // yields the same global table.
    let c1 = b"A;1.0\n";
    let c2 = b"A;2.0\nB;5.0\n";
    let c3 = b"B;3.0\nA;6.0\n";
    let mut left = process_chunk(c1).0;
    left.merge_from(&process_chunk(c2).0);
    left.merge_from(&process_chunk(c3).0);
    let mut right = process_chunk(c2).0;
    right.merge_from(&process_chunk(c3).0);
    let mut first = process_chunk(c1).0;
    first.merge_from(&right);
    for key in [b"A".as_slice(), b"B".as_slice()] {
        assert_eq!(*left.get(key).unwrap(), *first.get(key).unwrap());
    }
    let a = left.get(b"A").unwrap();
    assert_eq!(a.count, 3);
    assert_eq!(a.min, 10_000);
    assert_eq!(a.max, 60_000);
    assert_eq!(a.mean_scaled(), 30_000);
}

#[test]
fn parallel_fold_matches_pipeline() {
    // Planning ranges, aggregating each one on its own, and folding the
    // per-range tables reproduces the single-pass result.
    let input = b"A;1.0\nB;2.0\nA;3.0\nC;-4.5\nB;0.5\nA;2.25\nbad line\n";
    let chunks = generate_chunks(input, 4);
    let mut folded = one_brc::table::Table::new();
    let mut records: u64 = 0;
    let mut skipped: u64 = 0;
    for c in &chunks {
        let (t, rec, skip) = process_chunk(&input[c.start..c.end]);
        assert!(folded.can_merge(&t));
        folded.merge_from(&t);
        records += rec;
        skipped += skip;
    }
    let (whole, wrec, wskip) = process_data(input, 1);
    assert_eq!(records, wrec);
    assert_eq!(skipped, wskip);
    assert_eq!(folded.len(), whole.len());
    for i in 0..whole.len() {
        let (key, stats) = whole.entry_at(i);
        assert_eq!(*folded.get(key.as_slice()).unwrap(), *stats);
    }
}

#[test]
fn stats_new_is_identity() {
    let s = Stats::new();
    assert_eq!(s.count, 0);
    assert_eq!(s.sum, 0);
    assert_eq!(s.min, i64::MAX);
    assert_eq!(s.max, i64::MIN);
}

#[test]
fn observe_tracks_min_max_sum() {
    let mut s = Stats::new();
    s.observe(15_000);
    s.observe(-5_000);
    s.observe(20_000);
    assert_eq!(s.count, 3);
    assert_eq!(s.min, -5_000);
    assert_eq!(s.max, 20_000);
    assert_eq!(s.sum, 30_000);
    assert_eq!(s.mean_scaled(), 10_000);
}

#[test]
fn mean_truncates_toward_zero() {
    let (table, _, _) = process_data(b"A;1.0\nA;2.0\n", 1);
    assert_eq!(table.get(b"A").unwrap().mean_scaled(), 15_000);
    let (table, _, _) = process_data(b"B;-1.0\nB;-2.0\nB;-2.0\n", 1);
    // (-5.0 / 3) truncated toward zero at fixed-point resolution.
    assert_eq!(table.get(b"B").unwrap().mean_scaled(), -16_666);
}

#[test]
fn negative_only_key() {
    let (table, _, _) = process_data(b"A;-1.5\nA;-2.5\n", 1);
    let a = table.get(b"A").unwrap();
    assert_eq!(a.min, -25_000);
    assert_eq!(a.max, -15_000);
    assert_eq!(a.sum, -40_000);
    assert_eq!(a.mean_scaled(), -20_000);
}
