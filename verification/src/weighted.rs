//! Query-group-weighted coverage: the occurrence table built in the first
//! pass over the alignment records, and the exact weighted per-node
//! accumulator used in the second pass.

use crate::accum::{events_len_for, lemma_events_len_nonneg, sat_add128, sat_inc64, Coverage};
use crate::graph::GraphIndex;
use crate::scan::bytes_eq;
use vstd::prelude::*;

verus! {

fn sat_add_u128(a: u128, b: u64) -> (r: u128)
    ensures
        r as int == sat_add128(a as int, b as int),
{
    if (b as u128) <= u128::MAX - a {
        a + (b as u128)
    } else {
        u128::MAX
    }
}

fn sat_inc_u64(a: u64) -> (r: u64)
    ensures
        r as int == sat_inc64(a as int),
{
    if a < u64::MAX {
        a + 1
    } else {
        a
    }
}

/// Position of the last key equal to `key`, `-1` when absent.
pub open spec fn key_pos_in(keys: Seq<Seq<u8>>, key: Seq<u8>) -> int
    decreases keys.len(),
{
    if keys.len() == 0 {
        -1
    } else if keys.last() == key {
        keys.len() - 1
    } else {
        key_pos_in(keys.drop_last(), key)
    }
}

pub proof fn lemma_key_pos_in(keys: Seq<Seq<u8>>, key: Seq<u8>)
    ensures
        -1 <= key_pos_in(keys, key) < keys.len(),
        key_pos_in(keys, key) >= 0 ==> keys[key_pos_in(keys, key)] == key,
    decreases keys.len(),
{
    if keys.len() > 0 && keys.last() != key {
        lemma_key_pos_in(keys.drop_last(), key);
        assert(forall|i: int| 0 <= i < keys.len() - 1 ==> keys[i] == keys.drop_last()[i]);
    }
}

/// The occurrence count of each composite query-group key, built in the
/// weighted mode's first pass over the alignment records.
pub struct QueryCounts {
    keys: Vec<Vec<u8>>,
    counts: Vec<u64>,
}

impl QueryCounts {
    /// The keys seen so far, in first-seen order.
    pub closed spec fn keys(self) -> Seq<Seq<u8>> {
        crate::scan::views_of(self.keys@)
    }

    /// The running counts, aligned with the keys.
    pub closed spec fn counts(self) -> Seq<int> {
        self.counts@.map_values(|c: u64| c as int)
    }

    /// Keys and counts stay aligned.
    pub open spec fn wf(self) -> bool {
        self.keys().len() == self.counts().len()
    }

    /// The table position a key resolves to, `-1` when absent.
    pub open spec fn pos_of(self, key: Seq<u8>) -> int {
        key_pos_in(self.keys(), key)
    }

    /// The key has been counted at least once.
    pub open spec fn has_key(self, key: Seq<u8>) -> bool {
        self.pos_of(key) >= 0
    }

    /// The occurrence count of a key, 0 when the key was never seen.
    pub open spec fn count_of(self, key: Seq<u8>) -> int {
        if self.has_key(key) {
            self.counts()[self.pos_of(key)]
        } else {
            0
        }
    }

    /// An empty table.
    pub fn new() -> (r: QueryCounts)
        ensures
            r.wf(),
            forall|k: Seq<u8>| !r.has_key(k),
    {
        QueryCounts { keys: Vec::new(), counts: Vec::new() }
    }

    /// The table position of a key, or `None` when absent.
    fn find_key(&self, key: &[u8]) -> (r: Option<usize>)
        ensures
            match r {
                Some(p) => self.pos_of(key@) == p,
                None => self.pos_of(key@) < 0,
            },
    {
        let mut i: usize = self.keys.len();
        proof {
            assert(self.keys().take(self.keys().len() as int) =~= self.keys());
        }
        while i > 0
            invariant
                0 <= i <= self.keys@.len(),
                self.keys().len() == self.keys@.len(),
                key_pos_in(self.keys(), key@) == key_pos_in(self.keys().take(i as int), key@),
            decreases i,
        {
            proof {
                assert(self.keys().take(i as int).last() == self.keys()[i as int - 1]);
                assert(self.keys().take(i as int).drop_last() =~= self.keys().take(i as int - 1));
                assert(self.keys()[i as int - 1] == self.keys@[i as int - 1]@);
            }
            if bytes_eq(self.keys[i - 1].as_slice(), key) {
                return Some(i - 1);
            }
            i -= 1;
        }
        proof {
            assert(self.keys().take(0) =~= Seq::<Seq<u8>>::empty());
        }
        None
    }

    /// Counts one occurrence of a key, saturating.
    pub fn bump(&mut self, key: &[u8])
        requires
            old(self).wf(),
        ensures
            final(self).wf(),
            forall|k: Seq<u8>|
                #[trigger] final(self).count_of(k) == if k == key@ {
                    sat_inc64(old(self).count_of(k))
                } else {
                    old(self).count_of(k)
                },
            forall|k: Seq<u8>|
                #[trigger] final(self).has_key(k) == (old(self).has_key(k) || k == key@),
    {
        let ghost pkeys = self.keys();
        let ghost pcounts = self.counts();
        match self.find_key(key) {
            Some(p) => {
                proof {
                    lemma_key_pos_in(pkeys, key@);
                }
                let cur = self.counts[p];
                self.counts.set(p, sat_inc_u64(cur));
                proof {
                    assert(self.keys() == pkeys);
                    assert(self.counts() =~= pcounts.update(
                        p as int,
                        sat_inc64(pcounts[p as int]),
                    ));
                    assert forall|k: Seq<u8>|
                        #[trigger] self.count_of(k) == (if k == key@ {
                            sat_inc64(old(self).count_of(k))
                        } else {
                            old(self).count_of(k)
                        }) by {
                        lemma_key_pos_in(pkeys, k);
                        if k == key@ {
                        } else {
                            assert(self.pos_of(k) != p as int);
                        }
                    }
                }
            },
            None => {
                let kv = vstd::slice::slice_to_vec(key);
                self.keys.push(kv);
                self.counts.push(1);
                proof {
                    assert(self.keys() =~= pkeys.push(key@));
                    assert(self.counts() =~= pcounts.push(1));
                    assert forall|k: Seq<u8>|
                        #[trigger] key_pos_in(self.keys(), k) == (if k == key@ {
                            pkeys.len() as int
                        } else {
                            key_pos_in(pkeys, k)
                        }) by {
                        assert(self.keys().last() == key@);
                        assert(self.keys().drop_last() =~= pkeys);
                    }
                    assert forall|k: Seq<u8>|
                        #[trigger] self.count_of(k) == (if k == key@ {
                            sat_inc64(old(self).count_of(k))
                        } else {
                            old(self).count_of(k)
                        }) by {
                        lemma_key_pos_in(pkeys, k);
                    }
                }
            },
        }
    }

    /// The weight divisor for a record: its key's occurrence count, or 1 for
    /// a key outside the table.
    pub fn count_or_one(&self, key: &[u8]) -> (r: u64)
        requires
            self.wf(),
        ensures
            r as int == if self.has_key(key@) {
                self.count_of(key@)
            } else {
                1
            },
    {
        proof {
            lemma_key_pos_in(self.keys(), key@);
        }
        match self.find_key(key) {
            Some(p) => self.counts[p],
            None => 1,
        }
    }
}

/// One node's weighted-coverage cell: the raw length accumulated for the
/// node under one weight divisor.
#[derive(Clone, Copy, Debug, PartialEq, Eq, Structural)]
pub struct WEntry {
    pub id: u64,
    pub count: u64,
    pub total: u128,
}

/// Position of the last cell for a node id and weight divisor, `-1` when
/// absent.
pub open spec fn wpos_in(s: Seq<WEntry>, id: u64, count: u64) -> int
    decreases s.len(),
{
    if s.len() == 0 {
        -1
    } else if s.last().id == id && s.last().count == count {
        s.len() - 1
    } else {
        wpos_in(s.drop_last(), id, count)
    }
}

pub proof fn lemma_wpos_in(s: Seq<WEntry>, id: u64, count: u64)
    ensures
        -1 <= wpos_in(s, id, count) < s.len(),
        wpos_in(s, id, count) >= 0 ==> s[wpos_in(s, id, count)].id == id && s[wpos_in(
            s,
            id,
            count,
        )].count == count,
    decreases s.len(),
{
    if s.len() > 0 && !(s.last().id == id && s.last().count == count) {
        lemma_wpos_in(s.drop_last(), id, count);
        assert(forall|i: int| 0 <= i < s.len() - 1 ==> s[i] == s.drop_last()[i]);
    }
}

proof fn lemma_wpos_push(s: Seq<WEntry>, e: WEntry, id: u64, count: u64)
    ensures
        wpos_in(s.push(e), id, count) == if e.id == id && e.count == count {
            s.len() as int
        } else {
            wpos_in(s, id, count)
        },
{
    assert(s.push(e).drop_last() =~= s);
}

proof fn lemma_wpos_update(s: Seq<WEntry>, p: int, e: WEntry, id: u64, count: u64)
    requires
        0 <= p < s.len(),
        s[p].id == e.id && s[p].count == e.count,
    ensures
        wpos_in(s.update(p, e), id, count) == wpos_in(s, id, count),
    decreases s.len(),
{
    let s2 = s.update(p, e);
    if p == s.len() - 1 {
        assert(s2.last() == e);
        assert(s2.drop_last() =~= s.drop_last());
    } else {
        assert(s2.last() == s.last());
        assert(s2.drop_last() =~= s.drop_last().update(p, e));
        lemma_wpos_update(s.drop_last(), p, e, id, count);
    }
}

/// Query-group-weighted per-node coverage, kept exact: the raw length each
/// record attributes to a node is accumulated under the record's weight
/// divisor (its key's occurrence count), and the weighted value of a node is
/// the exact rational sum of `total / count` over its cells. Events for node
/// ids outside the graph index are silently dropped.
pub struct WeightedCoverage {
    entries: Vec<WEntry>,
}

impl WeightedCoverage {
    /// The cells, in first-seen order.
    pub closed spec fn entries(self) -> Seq<WEntry> {
        self.entries@
    }

    /// The cell position for a node id and weight divisor, `-1` when absent.
    pub open spec fn pos_of(self, id: u64, count: u64) -> int {
        wpos_in(self.entries(), id, count)
    }

    /// The raw length accumulated for a node under a weight divisor, 0 when
    /// no record contributed.
    pub open spec fn total_at(self, id: u64, count: u64) -> int {
        if self.pos_of(id, count) >= 0 {
            self.entries()[self.pos_of(id, count)].total as int
        } else {
            0
        }
    }

    /// An empty accumulator.
    pub fn new() -> (r: WeightedCoverage)
        ensures
            r.entries() == Seq::<WEntry>::empty(),
            forall|id: u64, c: u64| #[trigger] r.total_at(id, c) == 0,
    {
        WeightedCoverage { entries: Vec::new() }
    }

    /// The number of cells.
    pub fn cell_count(&self) -> (r: usize)
        ensures
            r == self.entries().len(),
    {
        self.entries.len()
    }

    /// The cell at a position.
    pub fn cell_at(&self, i: usize) -> (r: WEntry)
        requires
            i < self.entries().len(),
        ensures
            r == self.entries()[i as int],
    {
        self.entries[i]
    }

    /// The cell position of a node id and weight divisor, or `None`.
    fn find_cell(&self, id: u64, count: u64) -> (r: Option<usize>)
        ensures
            match r {
                Some(p) => self.pos_of(id, count) == p,
                None => self.pos_of(id, count) < 0,
            },
    {
        let mut i: usize = self.entries.len();
        proof {
            assert(self.entries@.take(self.entries@.len() as int) =~= self.entries@);
        }
        while i > 0
            invariant
                0 <= i <= self.entries@.len(),
                wpos_in(self.entries@, id, count) == wpos_in(
                    self.entries@.take(i as int),
                    id,
                    count,
                ),
            decreases i,
        {
            proof {
                assert(self.entries@.take(i as int).last() == self.entries@[i as int - 1]);
                assert(self.entries@.take(i as int).drop_last() =~= self.entries@.take(
                    i as int - 1,
                ));
            }
            let e = self.entries[i - 1];
            if e.id == id && e.count == count {
                return Some(i - 1);
            }
            i -= 1;
        }
        proof {
            assert(self.entries@.take(0) =~= Seq::<WEntry>::empty());
        }
        None
    }

    /// The raw length accumulated for a node under a weight divisor.
    pub fn total_pair(&self, id: u64, count: u64) -> (r: u128)
        ensures
            r as int == self.total_at(id, count),
    {
        proof {
            lemma_wpos_in(self.entries(), id, count);
        }
        match self.find_cell(id, count) {
            Some(p) => self.entries[p].total,
            None => 0,
        }
    }

    /// Adds a record's attributed length for one node under the record's
    /// weight divisor, saturating; an id the index does not declare is
    /// silently ignored.
    pub fn add(&mut self, index: &GraphIndex, id: u64, count: u64, len: u64)
        ensures
            !index.contains(id) ==> *final(self) == *old(self),
            index.contains(id) ==> (forall|i2: u64, c2: u64|
                #[trigger] final(self).total_at(i2, c2) == if i2 == id && c2 == count {
                    sat_add128(old(self).total_at(i2, c2), len as int)
                } else {
                    old(self).total_at(i2, c2)
                }),
    {
        if index.position_of(id).is_none() {
            return ;
        }
        let ghost pre = self.entries();
        match self.find_cell(id, count) {
            Some(p) => {
                proof {
                    lemma_wpos_in(pre, id, count);
                }
                let cur = self.entries[p];
                let e = WEntry { id, count, total: sat_add_u128(cur.total, len) };
                self.entries.set(p, e);
                proof {
                    assert forall|i2: u64, c2: u64| #[trigger] wpos_in(self.entries(), i2, c2)
                        == wpos_in(pre, i2, c2) by {
                        lemma_wpos_update(pre, p as int, e, i2, c2);
                    }
                    assert forall|i2: u64, c2: u64| !(i2 == id && c2 == count) implies #[trigger] self.total_at(i2, c2) == old(self).total_at(i2, c2) by {
                        lemma_wpos_in(pre, i2, c2);
                    }
                }
            },
            None => {
                let e = WEntry { id, count, total: len as u128 };
                self.entries.push(e);
                proof {
                    assert forall|i2: u64, c2: u64|
                        #[trigger] wpos_in(self.entries(), i2, c2) == (if i2 == id && c2 == count {
                            pre.len() as int
                        } else {
                            wpos_in(pre, i2, c2)
                        }) by {
                        lemma_wpos_push(pre, e, i2, c2);
                    }
                    assert forall|i2: u64, c2: u64| !(i2 == id && c2 == count) implies #[trigger] self.total_at(i2, c2) == old(self).total_at(i2, c2) by {
                        lemma_wpos_in(pre, i2, c2);
                    }
                    assert(self.total_at(id, count) == len as int);
                }
            },
        }
    }

    /// Folds one record's node events into the cells under the record's
    /// weight divisor: each node id declared by the index gains, in its cell
    /// for that divisor, the total length the events attribute to it; every
    /// other cell is untouched.
    pub fn add_events(&mut self, index: &GraphIndex, events: &Vec<(u64, u64)>, count: u64)
        ensures
            forall|id: u64|
                index.contains(id) ==> #[trigger] final(self).total_at(id, count) == sat_add128(
                    old(self).total_at(id, count),
                    events_len_for(events@, id),
                ),
            forall|id: u64|
                !index.contains(id) ==> #[trigger] final(self).total_at(id, count) == old(
                    self,
                ).total_at(id, count),
            forall|id: u64, c2: u64|
                c2 != count ==> #[trigger] final(self).total_at(id, c2) == old(self).total_at(
                    id,
                    c2,
                ),
    {
        let n = events.len();
        let mut k: usize = 0;
        while k < n
            invariant
                0 <= k <= n,
                n == events@.len(),
                forall|id: u64|
                    index.contains(id) ==> #[trigger] self.total_at(id, count) == sat_add128(
                        old(self).total_at(id, count),
                        events_len_for(events@.take(k as int), id),
                    ),
                forall|id: u64|
                    !index.contains(id) ==> #[trigger] self.total_at(id, count) == old(
                        self,
                    ).total_at(id, count),
                forall|id: u64, c2: u64|
                    c2 != count ==> #[trigger] self.total_at(id, c2) == old(self).total_at(id, c2),
            decreases n - k,
        {
            let (eid, elen) = events[k];
            let ghost pre = *self;
            self.add(index, eid, count, elen);
            proof {
                assert(events@.take(k as int + 1).drop_last() =~= events@.take(k as int));
                assert(events@.take(k as int + 1).last() == events@[k as int]);
                assert forall|id: u64| index.contains(id) implies #[trigger] self.total_at(
                    id,
                    count,
                ) == sat_add128(
                    old(self).total_at(id, count),
                    events_len_for(events@.take(k as int + 1), id),
                ) by {
                    assert(pre.total_at(id, count) == sat_add128(
                        old(self).total_at(id, count),
                        events_len_for(events@.take(k as int), id),
                    ));
                    lemma_events_len_nonneg(events@.take(k as int), id);
                }
                assert forall|id: u64| !index.contains(id) implies #[trigger] self.total_at(
                    id,
                    count,
                ) == old(self).total_at(id, count) by {
                    assert(pre.total_at(id, count) == old(self).total_at(id, count));
                }
                assert forall|id: u64, c2: u64| c2 != count implies #[trigger] self.total_at(
                    id,
                    c2,
                ) == old(self).total_at(id, c2) by {
                    assert(pre.total_at(id, c2) == old(self).total_at(id, c2));
                }
            }
            k += 1;
        }
        proof {
            assert(events@.take(n as int) =~= events@);
        }
    }
}

/// Law: two records that share a composite query-group key have weight 2,
/// and folding the same node events in twice at weight 2 leaves, in each
/// declared node's weight-2 cell, exactly the total that two unweighted
/// folds of the same events add to the node. The node's exact weighted value
/// — the cell total divided by the weight 2 — is therefore half its
/// unweighted total: each of the two records contributed half its raw
/// attributed length.
pub proof fn lemma_weighted_halves(
    index: GraphIndex,
    events: Seq<(u64, u64)>,
    w0: WeightedCoverage,
    w2: WeightedCoverage,
    u0: Coverage,
    u2: Coverage,
    id: u64,
)
    requires
        index.contains(id),
        u0.wf(index),
        // every cell of the weighted accumulator starts empty,
        w0.total_at(id, 2) == 0,
        // as does the unweighted total,
        u0.total_of(index, id) == 0,
        // the two records' events fit without saturating,
        2 * events_len_for(events, id) <= u128::MAX,
        // `w2` is `w0` after the two records' events at weight 2,
        w2.total_at(id, 2) == sat_add128(
            sat_add128(w0.total_at(id, 2), events_len_for(events, id)),
            events_len_for(events, id),
        ),
        // `u2` is `u0` after the two records' events, unweighted,
        u2.total_of(index, id) == sat_add128(
            sat_add128(u0.total_of(index, id), events_len_for(events, id)),
            events_len_for(events, id),
        ),
    ensures
        w2.total_at(id, 2) == u2.total_of(index, id),
        w2.total_at(id, 2) == 2 * events_len_for(events, id),
        // the exact weighted value is half the unweighted total
        w2.total_at(id, 2) / 2 == events_len_for(events, id),
        2 * (w2.total_at(id, 2) / 2) == u2.total_of(index, id),
{
    lemma_events_len_nonneg(events, id);
}

} // verus!
