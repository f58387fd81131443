//! Key-to-statistics tables and their merge rule.
//!
//! A table maps each observed key to its aggregate. Merging two tables
//! takes the union of their keys and merges the aggregates of shared
//! keys; the merge is commutative and associative, so per-range tables
//! may be folded in any order or grouping.

use vstd::prelude::*;
use crate::stats::{
    stats_merge, stats_one, stats_wf, lemma_stats_merge_wf, SStats, Stats, VAL_MAX,
};

verus! {

/// Fold one aggregate for key `k` into the table: merge it with the
/// existing entry, or create the entry.
pub open spec fn map_merge_one(m: Map<Seq<u8>, SStats>, k: Seq<u8>, s: SStats) -> Map<
    Seq<u8>,
    SStats,
> {
    if m.dom().contains(k) {
        m.insert(k, stats_merge(m[k], s))
    } else {
        m.insert(k, s)
    }
}

/// Merge two tables: union of keys, merged aggregates on shared keys, a
/// key present on one side only passes through unchanged.
pub open spec fn table_merge(a: Map<Seq<u8>, SStats>, b: Map<Seq<u8>, SStats>) -> Map<
    Seq<u8>,
    SStats,
> {
    Map::new(
        |k: Seq<u8>| a.dom().contains(k) || b.dom().contains(k),
        |k: Seq<u8>|
            if a.dom().contains(k) && b.dom().contains(k) {
                stats_merge(a[k], b[k])
            } else if a.dom().contains(k) {
                a[k]
            } else {
                b[k]
            },
    )
}

/// Every aggregate in the table is well formed and has observed at least
/// one record.
pub open spec fn table_map_wf(m: Map<Seq<u8>, SStats>) -> bool {
    forall|k: Seq<u8>| #[trigger]
        m.dom().contains(k) ==> stats_wf(m[k]) && m[k].count > 0
}

/// The counts of every key shared by the two tables fit in a machine
/// counter when added.
pub open spec fn merge_counts_fit(a: Map<Seq<u8>, SStats>, b: Map<Seq<u8>, SStats>) -> bool {
    forall|k: Seq<u8>|
        #[trigger] a.dom().contains(k) && #[trigger] b.dom().contains(k) ==> a[k].count
            + b[k].count <= u64::MAX
}

/// Merging tables is commutative.
pub proof fn lemma_table_merge_commutative(a: Map<Seq<u8>, SStats>, b: Map<Seq<u8>, SStats>)
    ensures
        table_merge(a, b) == table_merge(b, a),
{
    assert(table_merge(a, b) =~= table_merge(b, a));
}

/// Merging tables is associative.
pub proof fn lemma_table_merge_associative(
    a: Map<Seq<u8>, SStats>,
    b: Map<Seq<u8>, SStats>,
    c: Map<Seq<u8>, SStats>,
)
    ensures
        table_merge(table_merge(a, b), c) == table_merge(a, table_merge(b, c)),
{
    assert(table_merge(table_merge(a, b), c) =~= table_merge(a, table_merge(b, c)));
}

/// The empty table is a two-sided identity for merge.
pub proof fn lemma_table_merge_empty(a: Map<Seq<u8>, SStats>)
    ensures
        table_merge(a, Map::empty()) == a,
        table_merge(Map::empty(), a) == a,
{
    assert(table_merge(a, Map::empty()) =~= a);
    assert(table_merge(Map::empty(), a) =~= a);
}

/// Folding one aggregate into `b` before merging equals folding it into
/// the merged table, provided its key is not yet in `b`.
pub proof fn lemma_table_merge_one(
    a: Map<Seq<u8>, SStats>,
    b: Map<Seq<u8>, SStats>,
    k: Seq<u8>,
    s: SStats,
)
    requires
        !b.dom().contains(k),
    ensures
        table_merge(a, b.insert(k, s)) == map_merge_one(table_merge(a, b), k, s),
{
    assert(table_merge(a, b.insert(k, s)) =~= map_merge_one(table_merge(a, b), k, s));
}

/// Folding one aggregate into the right-hand table commutes with the
/// merge of the tables.
pub proof fn lemma_merge_fold_right(
    a: Map<Seq<u8>, SStats>,
    b: Map<Seq<u8>, SStats>,
    k: Seq<u8>,
    s: SStats,
)
    ensures
        map_merge_one(table_merge(a, b), k, s) == table_merge(a, map_merge_one(b, k, s)),
{
    crate::stats::lemma_stats_merge_associative(
        if a.dom().contains(k) { a[k] } else { s },
        if b.dom().contains(k) { b[k] } else { s },
        s,
    );
    assert(map_merge_one(table_merge(a, b), k, s) =~= table_merge(a, map_merge_one(b, k, s)));
}

/// Merging preserves table well-formedness.
pub proof fn lemma_table_merge_wf(a: Map<Seq<u8>, SStats>, b: Map<Seq<u8>, SStats>)
    requires
        table_map_wf(a),
        table_map_wf(b),
    ensures
        table_map_wf(table_merge(a, b)),
{
    assert forall|k: Seq<u8>| #[trigger] table_merge(a, b).dom().contains(k) implies stats_wf(
        table_merge(a, b)[k],
    ) && table_merge(a, b)[k].count > 0 by {
        if a.dom().contains(k) && b.dom().contains(k) {
            lemma_stats_merge_wf(a[k], b[k]);
        }
    };
}

/// The table a pair of key and statistics columns denotes.
pub closed spec fn entries_map(keys: Seq<Vec<u8>>, stats: Seq<Stats>) -> Map<Seq<u8>, SStats>
    decreases keys.len(),
{
    if keys.len() == 0 || stats.len() == 0 {
        Map::empty()
    } else {
        entries_map(keys.drop_last(), stats.drop_last()).insert(keys.last()@, stats.last()@)
    }
}

/// No key occurs twice.
pub open spec fn distinct_keys(keys: Seq<Vec<u8>>) -> bool {
    forall|i: int, j: int|
        0 <= i < j < keys.len() ==> #[trigger] keys[i]@ != #[trigger] keys[j]@
}

/// With distinct keys, the denoted table holds exactly the listed keys,
/// each bound to its listed aggregate.
proof fn lemma_entries_lookup(keys: Seq<Vec<u8>>, stats: Seq<Stats>)
    requires
        keys.len() == stats.len(),
        distinct_keys(keys),
    ensures
        forall|k: Seq<u8>| #[trigger]
            entries_map(keys, stats).dom().contains(k) <==> exists|i: int|
                0 <= i < keys.len() && #[trigger] keys[i]@ == k,
        forall|i: int|
            0 <= i < keys.len() ==> entries_map(keys, stats)[#[trigger] keys[i]@] == stats[i]@,
    decreases keys.len(),
{
    if keys.len() > 0 {
        let kp = keys.drop_last();
        let sp = stats.drop_last();
        assert(distinct_keys(kp)) by {
            assert forall|i: int, j: int| 0 <= i < j < kp.len() implies #[trigger] kp[i]@
                != #[trigger] kp[j]@ by {
                assert(kp[i] == keys[i] && kp[j] == keys[j]);
            };
        };
        lemma_entries_lookup(kp, sp);
        assert forall|i: int|
            0 <= i < keys.len() implies entries_map(keys, stats)[#[trigger] keys[i]@]
            == stats[i]@ by {
            if i < keys.len() - 1 {
                assert(kp[i] == keys[i]);
                assert(keys[i]@ != keys[keys.len() - 1]@);
            }
        };
        assert forall|k: Seq<u8>| #[trigger]
            entries_map(keys, stats).dom().contains(k) implies exists|i: int|
            0 <= i < keys.len() && #[trigger] keys[i]@ == k by {
            if k == keys.last()@ {
                assert(keys[keys.len() - 1]@ == k);
            } else {
                assert(entries_map(kp, sp).dom().contains(k));
                let i = choose|i: int| 0 <= i < kp.len() && #[trigger] kp[i]@ == k;
                assert(kp[i] == keys[i]);
                assert(keys[i]@ == k);
            }
        };
        assert forall|i: int| 0 <= i < keys.len() implies entries_map(keys, stats).dom().contains(
            #[trigger] keys[i]@,
        ) by {
            if i < keys.len() - 1 {
                assert(kp[i]@ == keys[i]@);
            }
        };
    }
}

/// With distinct keys, updating one statistics column entry updates the
/// denoted table at that entry's key.
proof fn lemma_entries_update(keys: Seq<Vec<u8>>, stats: Seq<Stats>, i: int, s: Stats)
    requires
        keys.len() == stats.len(),
        distinct_keys(keys),
        0 <= i < keys.len(),
    ensures
        entries_map(keys, stats.update(i, s)) == entries_map(keys, stats).insert(keys[i]@, s@),
    decreases keys.len(),
{
    let su = stats.update(i, s);
    let kp = keys.drop_last();
    let sp = stats.drop_last();
    assert(distinct_keys(kp)) by {
        assert forall|x: int, j: int| 0 <= x < j < kp.len() implies #[trigger] kp[x]@
            != #[trigger] kp[j]@ by {
            assert(kp[x] == keys[x] && kp[j] == keys[j]);
        };
    };
    if i == keys.len() - 1 {
        assert(su.drop_last() =~= sp);
        assert(su.last() == s);
        assert(entries_map(keys, su) =~= entries_map(keys, stats).insert(keys[i]@, s@));
    } else {
        assert(su.drop_last() =~= sp.update(i, s));
        assert(su.last() == stats.last());
        lemma_entries_update(kp, sp, i, s);
        assert(kp[i] == keys[i]);
        lemma_entries_lookup(kp, sp);
        assert(keys[i]@ != keys.last()@);
        assert(entries_map(keys, su) =~= entries_map(keys, stats).insert(keys[i]@, s@));
    }
}

/// With distinct keys, the denoted table has as many keys as entries.
proof fn lemma_entries_card(keys: Seq<Vec<u8>>, stats: Seq<Stats>)
    requires
        keys.len() == stats.len(),
        distinct_keys(keys),
    ensures
        entries_map(keys, stats).dom().finite(),
        entries_map(keys, stats).dom().len() == keys.len(),
    decreases keys.len(),
{
    if keys.len() > 0 {
        let kp = keys.drop_last();
        let sp = stats.drop_last();
        assert(distinct_keys(kp)) by {
            assert forall|x: int, j: int| 0 <= x < j < kp.len() implies #[trigger] kp[x]@
                != #[trigger] kp[j]@ by {
                assert(kp[x] == keys[x] && kp[j] == keys[j]);
            };
        };
        lemma_entries_card(kp, sp);
        lemma_entries_lookup(kp, sp);
        assert(!entries_map(kp, sp).dom().contains(keys.last()@)) by {
            if entries_map(kp, sp).dom().contains(keys.last()@) {
                let i = choose|i: int| 0 <= i < kp.len() && #[trigger] kp[i]@ == keys.last()@;
                assert(keys[i]@ == keys[keys.len() - 1]@);
            }
        };
    }
}

/// Byte-for-byte equality of two byte strings.
fn bytes_eq(a: &[u8], b: &[u8]) -> (r: bool)
    ensures
        r == (a@ == b@),
{
    if a.len() != b.len() {
        return false;
    }
    let n = a.len();
    let mut i: usize = 0;
    while i < n
        invariant
            0 <= i <= n,
            n == a@.len() && n == b@.len(),
            forall|j: int| 0 <= j < i ==> a@[j] == b@[j],
        decreases n - i,
    {
        if a[i] != b[i] {
            return false;
        }
        i = i + 1;
    }
    proof {
        assert(a@ =~= b@);
    }
    true
}

/// A mapping from keys to running aggregates: the per-range table built
/// by one aggregation pass, and the global table the merge step folds
/// them into.
pub struct Table {
    keys: Vec<Vec<u8>>,
    stats: Vec<Stats>,
}

impl View for Table {
    type V = Map<Seq<u8>, SStats>;

    closed spec fn view(&self) -> Map<Seq<u8>, SStats> {
        entries_map(self.keys@, self.stats@)
    }
}

impl Table {
    /// Internal invariant: one aggregate per key, keys distinct, every
    /// aggregate well formed and non-empty.
    pub closed spec fn wf(&self) -> bool {
        &&& self.keys@.len() == self.stats@.len()
        &&& distinct_keys(self.keys@)
        &&& forall|i: int|
            0 <= i < self.stats@.len() ==> stats_wf(#[trigger] self.stats@[i]@)
                && self.stats@[i]@.count > 0
    }

    /// A well-formed table denotes a well-formed mapping.
    pub proof fn lemma_wf_view(&self)
        requires
            self.wf(),
        ensures
            table_map_wf(self@),
    {
        lemma_entries_lookup(self.keys@, self.stats@);
        assert forall|k: Seq<u8>| #[trigger] self@.dom().contains(k) implies stats_wf(self@[k])
            && self@[k].count > 0 by {
            let i = choose|i: int| 0 <= i < self.keys@.len() && #[trigger] self.keys@[i]@ == k;
            assert(self@[self.keys@[i]@] == self.stats@[i]@);
        };
    }

    /// The empty table.
    pub fn new() -> (t: Table)
        ensures
            t@ == Map::<Seq<u8>, SStats>::empty(),
            t.wf(),
    {
        Table { keys: Vec::new(), stats: Vec::new() }
    }

    /// Index of `key` in the key column, if present.
    fn find(&self, key: &[u8]) -> (r: Option<usize>)
        requires
            self.wf(),
        ensures
            match r {
                Some(i) => i < self.keys@.len() && self.keys@[i as int]@ == key@,
                None => forall|j: int| 0 <= j < self.keys@.len() ==> self.keys@[j]@ != key@,
            },
    {
        let n = self.keys.len();
        let mut i: usize = 0;
        while i < n
            invariant
                0 <= i <= n,
                n == self.keys@.len(),
                forall|j: int| 0 <= j < i ==> self.keys@[j]@ != key@,
            decreases n - i,
        {
            if bytes_eq(self.keys[i].as_slice(), key) {
                return Some(i);
            }
            i = i + 1;
        }
        None
    }

    /// The aggregate recorded for `key`, if any.
    pub fn get(&self, key: &[u8]) -> (r: Option<&Stats>)
        requires
            self.wf(),
        ensures
            match r {
                Some(s) => {
                    &&& self@.dom().contains(key@)
                    &&& s@ == self@[key@]
                },
                None => !self@.dom().contains(key@),
            },
    {
        proof {
            lemma_entries_lookup(self.keys@, self.stats@);
        }
        match self.find(key) {
            Some(i) => Some(&self.stats[i]),
            None => None,
        }
    }

    /// Fold one aggregate for `key` into the table.
    pub fn merge_entry(&mut self, key: &Vec<u8>, st: &Stats)
        requires
            old(self).wf(),
            stats_wf(st@),
            st@.count > 0,
            old(self)@.dom().contains(key@) ==> old(self)@[key@].count + st@.count <= u64::MAX,
        ensures
            final(self).wf(),
            final(self)@ == map_merge_one(old(self)@, key@, st@),
    {
        proof {
            lemma_entries_lookup(self.keys@, self.stats@);
        }
        match self.find(key.as_slice()) {
            Some(i) => {
                proof {
                    lemma_entries_update(self.keys@, self.stats@, i as int, self.stats@[i as int]);
                }
                let mut s = self.stats[i];
                s.merge_from(st);
                proof {
                    lemma_entries_update(self.keys@, self.stats@, i as int, s);
                }
                self.stats[i] = s;
                proof {
                    assert forall|x: int|
                        0 <= x < self.stats@.len() implies stats_wf(#[trigger] self.stats@[x]@)
                        && self.stats@[x]@.count > 0 by {
                        if x != i {
                            assert(self.stats@[x] == old(self).stats@[x]);
                        }
                    };
                }
            },
            None => {
                let k = vstd::slice::slice_to_vec(key.as_slice());
                self.keys.push(k);
                self.stats.push(*st);
                proof {
                    assert(self.keys@.drop_last() =~= old(self).keys@);
                    assert(self.stats@.drop_last() =~= old(self).stats@);
                    assert(distinct_keys(self.keys@)) by {
                        assert forall|x: int, j: int|
                            0 <= x < j < self.keys@.len() implies #[trigger] self.keys@[x]@
                            != #[trigger] self.keys@[j]@ by {
                            if j < self.keys@.len() - 1 {
                                assert(self.keys@[x] == old(self).keys@[x]);
                                assert(self.keys@[j] == old(self).keys@[j]);
                            } else {
                                assert(self.keys@[x] == old(self).keys@[x]);
                            }
                        };
                    };
                    assert forall|x: int|
                        0 <= x < self.stats@.len() implies stats_wf(#[trigger] self.stats@[x]@)
                        && self.stats@[x]@.count > 0 by {
                        if x < self.stats@.len() - 1 {
                            assert(self.stats@[x] == old(self).stats@[x]);
                        }
                    };
                }
            },
        }
    }

    /// Record one observation of `key` with value `v`.
    pub fn upsert(&mut self, key: &Vec<u8>, v: i64)
        requires
            old(self).wf(),
            -VAL_MAX < v < VAL_MAX,
            old(self)@.dom().contains(key@) ==> old(self)@[key@].count < u64::MAX,
        ensures
            final(self).wf(),
            final(self)@ == map_merge_one(old(self)@, key@, stats_one(v as int)),
    {
        let mut s = Stats::new();
        s.observe(v);
        proof {
            crate::stats::lemma_stats_merge_identity(stats_one(v as int));
        }
        self.merge_entry(key, &s);
    }

    /// Number of distinct keys in the table.
    pub fn len(&self) -> (n: usize)
        requires
            self.wf(),
        ensures
            n == self@.dom().len(),
    {
        proof {
            lemma_entries_card(self.keys@, self.stats@);
        }
        self.keys.len()
    }

    /// The key and aggregate at position `i`, in insertion order.
    pub fn entry_at(&self, i: usize) -> (r: (&Vec<u8>, &Stats))
        requires
            self.wf(),
            i < self@.dom().len(),
        ensures
            self@.dom().contains(r.0@),
            r.1@ == self@[r.0@],
    {
        proof {
            lemma_entries_card(self.keys@, self.stats@);
            lemma_entries_lookup(self.keys@, self.stats@);
        }
        (&self.keys[i], &self.stats[i])
    }

    /// Whether the counts of every shared key can be added without
    /// overflowing the counter.
    pub fn can_merge(&self, other: &Table) -> (r: bool)
        requires
            self.wf(),
            other.wf(),
        ensures
            r == merge_counts_fit(self@, other@),
    {
        proof {
            lemma_entries_lookup(self.keys@, self.stats@);
            lemma_entries_lookup(other.keys@, other.stats@);
        }
        let n = other.keys.len();
        let mut i: usize = 0;
        while i < n
            invariant
                0 <= i <= n,
                self.wf(),
                other.wf(),
                n == other.keys@.len(),
                n == other.stats@.len(),
                forall|j: int|
                    0 <= j < i && self@.dom().contains(#[trigger] other.keys@[j]@) ==> self@[
                        other.keys@[j]@
                    ].count + other.stats@[j]@.count <= u64::MAX,
            decreases n - i,
        {
            proof {
                lemma_entries_lookup(self.keys@, self.stats@);
                lemma_entries_lookup(other.keys@, other.stats@);
            }
            match self.find(other.keys[i].as_slice()) {
                Some(x) => {
                    let a = self.stats[x].count;
                    let b = other.stats[i].count;
                    if a > u64::MAX - b {
                        proof {
                            let k = other.keys@[i as int]@;
                            assert(self.keys@[x as int]@ == k);
                            assert(self@.dom().contains(k));
                            assert(other@.dom().contains(k));
                            assert(self@[k] == self.stats@[x as int]@);
                            assert(other@[k] == other.stats@[i as int]@);
                            assert(!merge_counts_fit(self@, other@));
                        }
                        return false;
                    }
                },
                None => {
                },
            }
            i = i + 1;
        }
        proof {
            assert forall|k: Seq<u8>|
                #[trigger] self@.dom().contains(k) && #[trigger] other@.dom().contains(
                    k,
                ) implies self@[k].count + other@[k].count <= u64::MAX by {
                let j = choose|j: int| 0 <= j < other.keys@.len() && #[trigger] other.keys@[j]@ == k;
                assert(other@[other.keys@[j]@] == other.stats@[j]@);
            };
        }
        true
    }

    /// Fold every entry of `other` into this table.
    pub fn merge_from(&mut self, other: &Table)
        requires
            old(self).wf(),
            other.wf(),
            merge_counts_fit(old(self)@, other@),
        ensures
            final(self).wf(),
            final(self)@ == table_merge(old(self)@, other@),
    {
        proof {
            lemma_entries_lookup(other.keys@, other.stats@);
        }
        let ghost a = self@;
        let n = other.keys.len();
        let mut i: usize = 0;
        proof {
            assert(other.keys@.take(0) =~= Seq::<Vec<u8>>::empty());
            assert(other.stats@.take(0) =~= Seq::<Stats>::empty());
            lemma_table_merge_empty(a);
        }
        while i < n
            invariant
                0 <= i <= n,
                self.wf(),
                other.wf(),
                n == other.keys@.len(),
                n == other.stats@.len(),
                merge_counts_fit(a, other@),
                self@ == table_merge(a, entries_map(other.keys@.take(i as int), other.stats@.take(i as int))),
            decreases n - i,
        {
            let ghost pk = other.keys@.take(i as int);
            let ghost ps = other.stats@.take(i as int);
            let ghost pm = entries_map(pk, ps);
            let key = &other.keys[i];
            let st = &other.stats[i];
            proof {
                lemma_entries_lookup(other.keys@, other.stats@);
                assert(distinct_keys(pk)) by {
                    assert forall|x: int, j: int| 0 <= x < j < pk.len() implies #[trigger] pk[x]@
                        != #[trigger] pk[j]@ by {
                        assert(pk[x] == other.keys@[x] && pk[j] == other.keys@[j]);
                    };
                };
                lemma_entries_lookup(pk, ps);
                // The current key has not been folded yet.
                assert(!pm.dom().contains(key@)) by {
                    if pm.dom().contains(key@) {
                        let x = choose|x: int| 0 <= x < pk.len() && #[trigger] pk[x]@ == key@;
                        assert(other.keys@[x]@ == other.keys@[i as int]@);
                    }
                };
                // Count bound for the entry about to be folded.
                if self@.dom().contains(key@) {
                    assert(self@[key@] == table_merge(a, pm)[key@]);
                    assert(a.dom().contains(key@));
                    assert(other@.dom().contains(key@));
                    assert(other@[other.keys@[i as int]@] == other.stats@[i as int]@);
                }
            }
            self.merge_entry(key, st);
            proof {
                lemma_table_merge_one(a, pm, key@, st@);
                assert(other.keys@.take(i + 1).drop_last() =~= pk);
                assert(other.stats@.take(i + 1).drop_last() =~= ps);
                assert(other.keys@.take(i + 1).last() == other.keys@[i as int]);
                assert(other.stats@.take(i + 1).last() == other.stats@[i as int]);
                assert(entries_map(other.keys@.take(i + 1), other.stats@.take(i + 1)) == pm.insert(
                    key@,
                    st@,
                ));
            }
            i = i + 1;
        }
        proof {
            assert(other.keys@.take(n as int) =~= other.keys@);
            assert(other.stats@.take(n as int) =~= other.stats@);
        }
    }
}

} // verus!
