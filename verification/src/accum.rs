//! Accumulator strategies folding the allocator's node and edge events into
//! running totals: unweighted per-node sums, query-group-weighted per-node
//! sums, and per-edge traversal counts with an optional strict edge-validity
//! mode. Totals are exact integers that saturate at the type's maximum.

use crate::graph::{lemma_last_pos_of, GraphIndex};
use crate::scan::bytes_eq;
use crate::CovError;
use vstd::prelude::*;

verus! {

/// Saturating addition at the `u128` maximum.
pub open spec fn sat_add128(a: int, b: int) -> int {
    if a + b <= u128::MAX {
        a + b
    } else {
        u128::MAX as int
    }
}

/// Saturating increment at the `u64` maximum.
pub open spec fn sat_inc64(a: int) -> int {
    if a + 1 <= u64::MAX {
        a + 1
    } else {
        u64::MAX as int
    }
}

fn sat_add_u128(a: u128, b: u64) -> (r: u128)
    ensures
        r as int == sat_add128(a as int, b as int),
{
    if (b as u128) <= u128::MAX - a {
        a + (b as u128)
    } else {
        u128::MAX
    }
}

fn sat_inc_u64(a: u64) -> (r: u64)
    ensures
        r as int == sat_inc64(a as int),
{
    if a < u64::MAX {
        a + 1
    } else {
        a
    }
}

/// The total length the node events attribute to one node id.
pub open spec fn events_len_for(events: Seq<(u64, u64)>, id: u64) -> int
    decreases events.len(),
{
    if events.len() == 0 {
        0
    } else {
        events_len_for(events.drop_last(), id) + if events.last().0 == id {
            events.last().1 as int
        } else {
            0
        }
    }
}

pub proof fn lemma_events_len_nonneg(events: Seq<(u64, u64)>, id: u64)
    ensures
        events_len_for(events, id) >= 0,
    decreases events.len(),
{
    if events.len() > 0 {
        lemma_events_len_nonneg(events.drop_last(), id);
    }
}

/// Unweighted per-node coverage: one running total per segment record of the
/// graph index, in the index's order. An event for a node id outside the
/// index is silently dropped.
pub struct Coverage {
    totals: Vec<u128>,
}

impl Coverage {
    /// The running totals, one per segment record of the index.
    pub closed spec fn totals(self) -> Seq<int> {
        self.totals@.map_values(|t: u128| t as int)
    }

    /// The accumulator matches the index it was built over.
    pub open spec fn wf(self, index: GraphIndex) -> bool {
        self.totals().len() == index.segments().len()
    }

    /// The total attributed to a node id: the total at the index position
    /// the id resolves to, or 0 for an id outside the graph.
    pub open spec fn total_of(self, index: GraphIndex, id: u64) -> int {
        if index.contains(id) {
            self.totals()[index.pos_of(id)]
        } else {
            0
        }
    }

    /// A fresh accumulator over the index, all totals zero.
    pub fn new(index: &GraphIndex) -> (r: Coverage)
        ensures
            r.wf(*index),
            forall|p: int| 0 <= p < r.totals().len() ==> r.totals()[p] == 0,
    {
        let n = index.seg_count();
        let mut totals: Vec<u128> = Vec::new();
        let mut i: usize = 0;
        while i < n
            invariant
                0 <= i <= n,
                totals@.len() == i,
                forall|p: int| 0 <= p < i ==> totals@[p] == 0,
            decreases n - i,
        {
            totals.push(0);
            i += 1;
        }
        Coverage { totals }
    }

    /// The running total at an index position.
    pub fn total_at(&self, p: usize) -> (r: u128)
        requires
            p < self.totals().len(),
        ensures
            r as int == self.totals()[p as int],
    {
        self.totals[p]
    }

    /// Adds an attributed length to the node's total, saturating; an id the
    /// index does not declare is silently ignored.
    pub fn add(&mut self, index: &GraphIndex, id: u64, len: u64)
        requires
            old(self).wf(*index),
        ensures
            final(self).wf(*index),
            index.contains(id) ==> final(self).totals() == old(self).totals().update(
                index.pos_of(id),
                sat_add128(old(self).totals()[index.pos_of(id)], len as int),
            ),
            !index.contains(id) ==> final(self).totals() == old(self).totals(),
    {
        match index.position_of(id) {
            None => {
            },
            Some(p) => {
                proof {
                    lemma_last_pos_of(index.segments(), id);
                }
                let cur = self.totals[p];
                let nv = sat_add_u128(cur, len);
                self.totals.set(p, nv);
                proof {
                    assert(self.totals() =~= old(self).totals().update(
                        index.pos_of(id),
                        sat_add128(old(self).totals()[index.pos_of(id)], len as int),
                    ));
                }
            },
        }
    }

    /// Folds one record's node events into the totals: each node id declared
    /// by the index gains the total length the events attribute to it, and
    /// every other position is untouched.
    pub fn add_events(&mut self, index: &GraphIndex, events: &Vec<(u64, u64)>)
        requires
            old(self).wf(*index),
        ensures
            final(self).wf(*index),
            forall|id: u64|
                index.contains(id) ==> final(self).total_of(*index, id) == sat_add128(
                    old(self).total_of(*index, id),
                    events_len_for(events@, id),
                ),
            forall|p: int|
                0 <= p < final(self).totals().len() && index.pos_of(index.segments()[p].id) != p
                    ==> final(self).totals()[p] == old(self).totals()[p],
    {
        broadcast use lemma_last_pos_of;

        let n = events.len();
        let mut k: usize = 0;
        while k < n
            invariant
                0 <= k <= n,
                n == events@.len(),
                self.wf(*index),
                forall|id: u64|
                    index.contains(id) ==> self.total_of(*index, id) == sat_add128(
                        old(self).total_of(*index, id),
                        events_len_for(events@.take(k as int), id),
                    ),
                forall|p: int|
                    0 <= p < self.totals().len() && index.pos_of(index.segments()[p].id) != p
                        ==> self.totals()[p] == old(self).totals()[p],
            decreases n - k,
        {
            let (eid, elen) = events[k];
            let ghost pre = *self;
            self.add(index, eid, elen);
            proof {
                assert forall|id: u64| index.contains(id) implies self.total_of(*index, id)
                    == sat_add128(
                    old(self).total_of(*index, id),
                    events_len_for(events@.take(k as int + 1), id),
                ) by {
                    assert(events@.take(k as int + 1).drop_last() =~= events@.take(k as int));
                    assert(events@.take(k as int + 1).last() == events@[k as int]);
                    lemma_events_len_nonneg(events@.take(k as int), id);
                    lemma_last_pos_of(index.segments(), id);
                    lemma_last_pos_of(index.segments(), eid);
                    if id == eid {
                        assert(self.totals()[index.pos_of(id)] == sat_add128(
                            pre.totals()[index.pos_of(id)],
                            elen as int,
                        ));
                    } else {
                        if index.contains(eid) {
                            assert(index.segments()[index.pos_of(id)].id == id);
                            assert(index.segments()[index.pos_of(eid)].id == eid);
                            assert(index.pos_of(id) != index.pos_of(eid));
                        }
                    }
                }
                assert forall|p: int|
                    0 <= p < self.totals().len() && index.pos_of(index.segments()[p].id)
                        != p implies self.totals()[p] == old(self).totals()[p] by {
                    lemma_last_pos_of(index.segments(), eid);
                    if index.contains(eid) {
                        assert(index.segments()[index.pos_of(eid)].id == eid);
                    }
                }
            }
            k += 1;
        }
        proof {
            assert(events@.take(n as int) =~= events@);
        }
    }
}

/// One directed edge and its running traversal count.
#[derive(Clone, Copy, Debug, PartialEq, Eq, Structural)]
pub struct EdgeEntry {
    pub from: u64,
    pub to: u64,
    pub count: u64,
}

/// Position of the last entry for a directed edge, `-1` when absent.
pub open spec fn edge_pos_in(s: Seq<EdgeEntry>, from: u64, to: u64) -> int
    decreases s.len(),
{
    if s.len() == 0 {
        -1
    } else if s.last().from == from && s.last().to == to {
        s.len() - 1
    } else {
        edge_pos_in(s.drop_last(), from, to)
    }
}

pub proof fn lemma_edge_pos_in(s: Seq<EdgeEntry>, from: u64, to: u64)
    ensures
        -1 <= edge_pos_in(s, from, to) < s.len(),
        edge_pos_in(s, from, to) >= 0 ==> s[edge_pos_in(s, from, to)].from == from && s[
            edge_pos_in(s, from, to)
        ].to == to,
        edge_pos_in(s, from, to) < 0 ==> (forall|i: int|
            0 <= i < s.len() ==> !(s[i].from == from && s[i].to == to)),
    decreases s.len(),
{
    if s.len() > 0 && !(s.last().from == from && s.last().to == to) {
        lemma_edge_pos_in(s.drop_last(), from, to);
        assert(forall|i: int| 0 <= i < s.len() - 1 ==> s[i] == s.drop_last()[i]);
    }
}

/// Appending an entry makes it the match for its own edge and changes no
/// other edge's position.
proof fn lemma_edge_pos_push(s: Seq<EdgeEntry>, e: EdgeEntry, from: u64, to: u64)
    ensures
        edge_pos_in(s.push(e), from, to) == if e.from == from && e.to == to {
            s.len() as int
        } else {
            edge_pos_in(s, from, to)
        },
{
    assert(s.push(e).drop_last() =~= s);
}

/// Replacing an entry by one for the same edge changes no edge's position.
proof fn lemma_edge_pos_update(s: Seq<EdgeEntry>, p: int, e: EdgeEntry, from: u64, to: u64)
    requires
        0 <= p < s.len(),
        s[p].from == e.from && s[p].to == e.to,
    ensures
        edge_pos_in(s.update(p, e), from, to) == edge_pos_in(s, from, to),
    decreases s.len(),
{
    let s2 = s.update(p, e);
    if p == s.len() - 1 {
        assert(s2.last() == e);
        assert(s2.drop_last() =~= s.drop_last());
    } else {
        assert(s2.last() == s.last());
        assert(s2.drop_last() =~= s.drop_last().update(p, e));
        lemma_edge_pos_update(s.drop_last(), p, e, from, to);
    }
}

/// The number of events for one directed edge.
pub open spec fn edge_mult(events: Seq<(u64, u64)>, from: u64, to: u64) -> int
    decreases events.len(),
{
    if events.len() == 0 {
        0
    } else {
        edge_mult(events.drop_last(), from, to) + if events.last() == (from, to) {
            1int
        } else {
            0
        }
    }
}

pub proof fn lemma_edge_mult_nonneg(events: Seq<(u64, u64)>, from: u64, to: u64)
    ensures
        edge_mult(events, from, to) >= 0,
    decreases events.len(),
{
    if events.len() > 0 {
        lemma_edge_mult_nonneg(events.drop_last(), from, to);
    }
}

/// The link list declares the directed edge.
pub open spec fn links_has(links: Seq<(u64, u64)>, from: u64, to: u64) -> bool
    decreases links.len(),
{
    if links.len() == 0 {
        false
    } else {
        links.last() == (from, to) || links_has(links.drop_last(), from, to)
    }
}

/// Per-edge traversal counts. In the tolerant mode any observed edge joins
/// the edge set; in the strict mode the set is fixed to the universe the
/// accumulator was seeded with, and an edge outside it is a fatal error.
pub struct EdgeCounts {
    entries: Vec<EdgeEntry>,
    strict: bool,
}
/// Every event's edge is in the accumulator's edge set.
pub open spec fn all_edges_known(ec: EdgeCounts, events: Seq<(u64, u64)>) -> bool {
    forall|k: int| 0 <= k < events.len() ==> ec.has_edge(#[trigger] events[k].0, events[k].1)
}

/// Event `k` carries the first edge outside the accumulator's edge set, and
/// `e` reports it.
pub open spec fn rejects_at(ec: EdgeCounts, events: Seq<(u64, u64)>, k: int, e: CovError) -> bool {
    &&& 0 <= k < events.len()
    &&& !ec.has_edge(events[k].0, events[k].1)
    &&& forall|j: int| 0 <= j < k ==> ec.has_edge(#[trigger] events[j].0, events[j].1)
    &&& e == (CovError::UnknownEdge { from: events[k].0, to: events[k].1 })
}

impl EdgeCounts {
    /// The edge entries, in the order they were seeded or first observed.
    pub closed spec fn entries(self) -> Seq<EdgeEntry> {
        self.entries@
    }

    /// Strict edge validation is on.
    pub closed spec fn is_strict(self) -> bool {
        self.strict
    }

    /// The entry position an edge resolves to, `-1` when absent.
    pub open spec fn pos_of(self, from: u64, to: u64) -> int {
        edge_pos_in(self.entries(), from, to)
    }

    /// The edge is in the accumulator's edge set.
    pub open spec fn has_edge(self, from: u64, to: u64) -> bool {
        self.pos_of(from, to) >= 0
    }

    /// The running count of an edge, 0 when absent.
    pub open spec fn count_of(self, from: u64, to: u64) -> int {
        if self.has_edge(from, to) {
            self.entries()[self.pos_of(from, to)].count as int
        } else {
            0
        }
    }

    /// A tolerant accumulator with an empty edge set.
    pub fn new() -> (r: EdgeCounts)
        ensures
            !r.is_strict(),
            r.entries() == Seq::<EdgeEntry>::empty(),
            forall|f: u64, t: u64| !r.has_edge(f, t),
    {
        EdgeCounts { entries: Vec::new(), strict: false }
    }

    /// An accumulator seeded with the graph's declared link set at count 0;
    /// with `strict` set, an edge outside that universe is rejected.
    pub fn with_universe(links: &Vec<(u64, u64)>, strict: bool) -> (r: EdgeCounts)
        ensures
            r.is_strict() == strict,
            forall|f: u64, t: u64| #[trigger] r.has_edge(f, t) == links_has(links@, f, t),
            forall|f: u64, t: u64| #[trigger] r.count_of(f, t) == 0,
    {
        let mut out = EdgeCounts { entries: Vec::new(), strict };
        let n = links.len();
        let mut k: usize = 0;
        while k < n
            invariant
                0 <= k <= n,
                n == links@.len(),
                out.strict == strict,
                forall|f: u64, t: u64| #[trigger] out.has_edge(f, t) == links_has(
                    links@.take(k as int),
                    f,
                    t,
                ),
                forall|f: u64, t: u64| #[trigger] out.count_of(f, t) == 0,
            decreases n - k,
        {
            let (f0, t0) = links[k];
            let ghost opre = out;
            let had = out.find_edge(f0, t0).is_some();
            if !had {
                out.entries.push(EdgeEntry { from: f0, to: t0, count: 0 });
            }
            proof {
                assert(links@.take(k as int + 1).drop_last() =~= links@.take(k as int));
                assert(links@.take(k as int + 1).last() == links@[k as int]);
                assert forall|f: u64, t: u64| #[trigger] out.has_edge(f, t) == links_has(
                    links@.take(k as int + 1),
                    f,
                    t,
                ) by {
                    assert(opre.has_edge(f, t) == links_has(links@.take(k as int), f, t));
                    assert(opre.has_edge(f0, t0) == links_has(links@.take(k as int), f0, t0));
                    if !had {
                        lemma_edge_pos_push(
                            opre.entries(),
                            EdgeEntry { from: f0, to: t0, count: 0 },
                            f,
                            t,
                        );
                    }
                }
                assert forall|f: u64, t: u64| #[trigger] out.count_of(f, t) == 0 by {
                    assert(opre.count_of(f, t) == 0);
                    if !had {
                        lemma_edge_pos_push(
                            opre.entries(),
                            EdgeEntry { from: f0, to: t0, count: 0 },
                            f,
                            t,
                        );
                        lemma_edge_pos_in(out.entries(), f, t);
                    }
                }
            }
            k += 1;
        }
        proof {
            assert(links@.take(n as int) =~= links@);
        }
        out
    }

    /// The entry position of an edge, or `None` when absent.
    fn find_edge(&self, from: u64, to: u64) -> (r: Option<usize>)
        ensures
            match r {
                Some(p) => self.pos_of(from, to) == p,
                None => self.pos_of(from, to) < 0,
            },
    {
        let mut i: usize = self.entries.len();
        proof {
            assert(self.entries@.take(self.entries@.len() as int) =~= self.entries@);
        }
        while i > 0
            invariant
                0 <= i <= self.entries@.len(),
                edge_pos_in(self.entries@, from, to) == edge_pos_in(
                    self.entries@.take(i as int),
                    from,
                    to,
                ),
            decreases i,
        {
            proof {
                assert(self.entries@.take(i as int).last() == self.entries@[i as int - 1]);
                assert(self.entries@.take(i as int).drop_last() =~= self.entries@.take(
                    i as int - 1,
                ));
            }
            let e = self.entries[i - 1];
            if e.from == from && e.to == to {
                return Some(i - 1);
            }
            i -= 1;
        }
        proof {
            assert(self.entries@.take(0) =~= Seq::<EdgeEntry>::empty());
        }
        None
    }

    /// The running count of an edge, 0 when absent.
    pub fn count(&self, from: u64, to: u64) -> (r: u64)
        ensures
            r as int == self.count_of(from, to),
    {
        proof {
            lemma_edge_pos_in(self.entries(), from, to);
        }
        match self.find_edge(from, to) {
            Some(p) => self.entries[p].count,
            None => 0,
        }
    }

    /// Records one directed edge traversal: the edge's count grows by one
    /// (entering the edge set at 1 in tolerant mode). In strict mode an edge
    /// outside the seeded universe is rejected as `UnknownEdge` and nothing
    /// changes.
    pub fn record(&mut self, from: u64, to: u64) -> (r: Result<(), CovError>)
        ensures
            old(self).is_strict() && !old(self).has_edge(from, to) ==> (r matches Err(e) && e == (
            CovError::UnknownEdge { from, to }) && *final(self) == *old(self)),
            !(old(self).is_strict() && !old(self).has_edge(from, to)) ==> ({
                &&& r is Ok
                &&& final(self).is_strict() == old(self).is_strict()
                &&& forall|f: u64, t: u64|
                    #[trigger] final(self).count_of(f, t) == if f == from && t == to {
                        sat_inc64(old(self).count_of(f, t))
                    } else {
                        old(self).count_of(f, t)
                    }
                &&& forall|f: u64, t: u64|
                    #[trigger] final(self).has_edge(f, t) == (old(self).has_edge(f, t) || (f
                        == from && t == to))
            }),
    {
        let ghost pre = self.entries();
        match self.find_edge(from, to) {
            Some(p) => {
                proof {
                    lemma_edge_pos_in(pre, from, to);
                }
                let cur = self.entries[p];
                let e = EdgeEntry { from, to, count: sat_inc_u64(cur.count) };
                self.entries.set(p, e);
                proof {
                    assert forall|f: u64, t: u64| #[trigger] edge_pos_in(self.entries(), f, t)
                        == edge_pos_in(pre, f, t) by {
                        lemma_edge_pos_update(pre, p as int, e, f, t);
                    }
                    assert forall|f: u64, t: u64| !(f == from && t == to) implies #[trigger] self
                        .count_of(f, t) == old(self).count_of(f, t) by {
                        lemma_edge_pos_in(pre, f, t);
                    }
                }
                Ok(())
            },
            None => {
                if self.strict {
                    return Err(CovError::UnknownEdge { from, to });
                }
                let e = EdgeEntry { from, to, count: 1 };
                self.entries.push(e);
                proof {
                    assert forall|f: u64, t: u64|
                        #[trigger] edge_pos_in(self.entries(), f, t) == (if f == from && t == to {
                            pre.len() as int
                        } else {
                            edge_pos_in(pre, f, t)
                        }) by {
                        lemma_edge_pos_push(pre, e, f, t);
                    }
                    assert forall|f: u64, t: u64| !(f == from && t == to) implies #[trigger] self
                        .count_of(f, t) == old(self).count_of(f, t) by {
                        lemma_edge_pos_in(pre, f, t);
                    }
                    assert(self.count_of(from, to) == 1);
                    assert(old(self).count_of(from, to) == 0);
                }
                Ok(())
            },
        }
    }

    /// Folds one record's edge events into the counts: each edge's count
    /// grows by its number of traversals, saturating. In strict mode the
    /// first event for an edge outside the seeded universe is rejected as
    /// `UnknownEdge` and nothing at all changes.
    pub fn record_events(&mut self, events: &Vec<(u64, u64)>) -> (r: Result<(), CovError>)
        ensures
            (r is Ok) == (!old(self).is_strict() || all_edges_known(*old(self), events@)),
            r matches Err(e) ==> *final(self) == *old(self) && (exists|k: int|
                rejects_at(*old(self), events@, k, e)),
            r is Ok ==> ({
                &&& final(self).is_strict() == old(self).is_strict()
                &&& forall|f: u64, t: u64|
                    #[trigger] final(self).count_of(f, t) == if old(self).count_of(f, t)
                        + edge_mult(events@, f, t) <= u64::MAX {
                        old(self).count_of(f, t) + edge_mult(events@, f, t)
                    } else {
                        u64::MAX as int
                    }
                &&& forall|f: u64, t: u64|
                    #[trigger] final(self).has_edge(f, t) == (old(self).has_edge(f, t)
                        || edge_mult(events@, f, t) > 0)
            }),
    {
        let n = events.len();
        if self.strict {
            let mut k: usize = 0;
            while k < n
                invariant
                    0 <= k <= n,
                    n == events@.len(),
                    *self == *old(self),
                    old(self).is_strict(),
                    forall|j: int|
                        0 <= j < k ==> self.has_edge(#[trigger] events@[j].0, events@[j].1),
                decreases n - k,
            {
                let (f0, t0) = events[k];
                if self.find_edge(f0, t0).is_none() {
                    proof {
                        assert(events@[k as int] == (f0, t0));
                        assert(rejects_at(
                            *old(self),
                            events@,
                            k as int,
                            CovError::UnknownEdge { from: f0, to: t0 },
                        ));
                        assert(!all_edges_known(*old(self), events@));
                    }
                    return Err(CovError::UnknownEdge { from: f0, to: t0 });
                }
                k += 1;
            }
            proof {
                assert(all_edges_known(*old(self), events@));
            }
        }
        let mut k: usize = 0;
        while k < n
            invariant
                0 <= k <= n,
                n == events@.len(),
                self.is_strict() == old(self).is_strict(),
                old(self).is_strict() ==> all_edges_known(*old(self), events@),
                forall|f: u64, t: u64|
                    #[trigger] self.count_of(f, t) == if old(self).count_of(f, t) + edge_mult(
                        events@.take(k as int),
                        f,
                        t,
                    ) <= u64::MAX {
                        old(self).count_of(f, t) + edge_mult(events@.take(k as int), f, t)
                    } else {
                        u64::MAX as int
                    },
                forall|f: u64, t: u64|
                    #[trigger] self.has_edge(f, t) == (old(self).has_edge(f, t) || edge_mult(
                        events@.take(k as int),
                        f,
                        t,
                    ) > 0),
            decreases n - k,
        {
            let (f0, t0) = events[k];
            let ghost pre = *self;
            proof {
                assert(pre.has_edge(f0, t0) == (old(self).has_edge(f0, t0) || edge_mult(
                    events@.take(k as int),
                    f0,
                    t0,
                ) > 0));
                lemma_edge_mult_nonneg(events@.take(k as int), f0, t0);
                if old(self).is_strict() {
                    assert(events@[k as int] == (f0, t0));
                    assert(old(self).has_edge(events@[k as int].0, events@[k as int].1));
                }
            }
            let res = self.record(f0, t0);
            proof {
                assert(res is Ok);
                assert(events@.take(k as int + 1).drop_last() =~= events@.take(k as int));
                assert(events@.take(k as int + 1).last() == events@[k as int]);
                assert forall|f: u64, t: u64|
                    #[trigger] self.count_of(f, t) == (if old(self).count_of(f, t) + edge_mult(
                        events@.take(k as int + 1),
                        f,
                        t,
                    ) <= u64::MAX {
                        old(self).count_of(f, t) + edge_mult(events@.take(k as int + 1), f, t)
                    } else {
                        u64::MAX as int
                    }) by {
                    assert(pre.count_of(f, t) == (if old(self).count_of(f, t) + edge_mult(
                        events@.take(k as int),
                        f,
                        t,
                    ) <= u64::MAX {
                        old(self).count_of(f, t) + edge_mult(events@.take(k as int), f, t)
                    } else {
                        u64::MAX as int
                    }));
                    lemma_edge_mult_nonneg(events@.take(k as int), f, t);
                }
                assert forall|f: u64, t: u64|
                    #[trigger] self.has_edge(f, t) == (old(self).has_edge(f, t) || edge_mult(
                        events@.take(k as int + 1),
                        f,
                        t,
                    ) > 0) by {
                    assert(pre.has_edge(f, t) == (old(self).has_edge(f, t) || edge_mult(
                        events@.take(k as int),
                        f,
                        t,
                    ) > 0));
                    lemma_edge_mult_nonneg(events@.take(k as int), f, t);
                }
            }
            k += 1;
        }
        proof {
            assert(events@.take(n as int) =~= events@);
        }
        Ok(())
    }
}

} // verus!
