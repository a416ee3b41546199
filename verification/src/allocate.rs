//! Coverage allocation: walks a decoded traversal list and attributes the
//! covered length of every node, trimming the first node by the declared
//! start offset and fitting the last node to the declared interval, together
//! with the directed edge between each pair of consecutive traversals.

use crate::graph::GraphIndex;
use crate::scan::dec_val;
use crate::walk::{
    decode_line, fields_of, interval_ok, line_shape_ok, path_steps, path_valid, star, Step,
};
use crate::CovError;
use vstd::prelude::*;

verus! {

/// Sum of a sequence of integers.
pub open spec fn sum_of(s: Seq<int>) -> int
    decreases s.len(),
{
    if s.len() == 0 {
        0
    } else {
        sum_of(s.drop_last()) + s.last()
    }
}

/// The declared (raw) lengths of the walk's nodes under an index.
pub open spec fn raw_lens(index: GraphIndex, steps: Seq<Step>) -> Seq<int> {
    Seq::new(steps.len(), |i: int| index.len_of(steps[i].id) as int)
}

/// Length attributed before the walk's last node is reached: the trimmed
/// first node plus every interior node, and 0 for a single-node walk.
pub open spec fn seen_before_last(lens: Seq<int>, start: int) -> int {
    if lens.len() <= 1 {
        0
    } else {
        (lens[0] - start) + sum_of(lens.subrange(1, lens.len() - 1))
    }
}

/// Length attributed by the first `i` traversals of the walk, `i` before the
/// last: the trimmed first node plus the interior nodes crossed so far.
pub open spec fn prefix_attrib(lens: Seq<int>, start: int, i: int) -> int {
    if i <= 0 {
        0
    } else {
        (lens[0] - start) + sum_of(lens.subrange(1, i))
    }
}

/// Effective covered length of the walk's node `i`. The first node is
/// trimmed by the start offset; interior nodes count whole; the last node
/// receives what remains of the declared interval — and when the declared
/// interval is shorter than what the walk already attributed, the interval
/// is silently widened to it, so the last node receives 0.
pub open spec fn eff_len(lens: Seq<int>, start: int, end: int, i: int) -> int {
    if i == lens.len() - 1 {
        let sbl = seen_before_last(lens, start);
        if end - start >= sbl {
            end - start - sbl
        } else {
            0
        }
    } else if i == 0 {
        lens[0] - start
    } else {
        lens[i]
    }
}

/// The directed edge implied by crossing `a` and then `b`: a forward
/// traversal of `a` yields the edge `a.id -> b.id`, a reverse traversal the
/// edge `b.id -> a.id`.
pub open spec fn edge_of(a: Step, b: Step) -> (u64, u64) {
    if a.forward {
        (a.id, b.id)
    } else {
        (b.id, a.id)
    }
}

/// The node events of an allocation: one `(node id, effective length)` pair
/// per traversal, in walk order.
pub open spec fn alloc_nodes_ok(
    index: GraphIndex,
    steps: Seq<Step>,
    start: int,
    end: int,
    nodes: Seq<(u64, u64)>,
) -> bool {
    let lens = raw_lens(index, steps);
    nodes.len() == steps.len() && (forall|i: int|
        0 <= i < steps.len() ==> nodes[i] == (steps[i].id, eff_len(lens, start, end, i) as u64))
}

/// The edge events of an allocation: one directed edge per consecutive pair
/// of traversals, in walk order.
pub open spec fn alloc_edges_ok(steps: Seq<Step>, edges: Seq<(u64, u64)>) -> bool {
    edges.len() == steps.len() - 1 && (forall|i: int|
        0 <= i < steps.len() - 1 ==> edges[i] == edge_of(steps[i], steps[i + 1]))
}

/// The node and edge events attributed to one alignment record.
pub struct Allocation {
    pub nodes: Vec<(u64, u64)>,
    pub edges: Vec<(u64, u64)>,
}

proof fn lemma_prefix_attrib_step(lens: Seq<int>, start: int, end: int, i: int)
    requires
        0 <= i < lens.len() - 1,
    ensures
        prefix_attrib(lens, start, i + 1) == prefix_attrib(lens, start, i) + eff_len(
            lens,
            start,
            end,
            i,
        ),
{
    if i == 0 {
        assert(lens.subrange(1, 1) =~= Seq::<int>::empty());
    } else {
        assert(lens.subrange(1, i + 1).drop_last() =~= lens.subrange(1, i));
        assert(lens.subrange(1, i + 1).last() == lens[i]);
    }
}

proof fn lemma_prefix_attrib_full(lens: Seq<int>, start: int)
    requires
        lens.len() >= 1,
    ensures
        prefix_attrib(lens, start, lens.len() - 1) == seen_before_last(lens, start),
{
}

/// Attributes coverage for one decoded walk. Fails with `IntervalOutOfRange`
/// exactly when the declared start offset exceeds the first node's length;
/// in strict-interval mode, fails with `IntervalTooShort` exactly when the
/// declared interval is shorter than the length the walk attributes before
/// its last node (the case the tolerant mode silently widens).
pub fn allocate(
    index: &GraphIndex,
    steps: &Vec<Step>,
    target_start: u64,
    target_end: u64,
    strict_interval: bool,
) -> (r: Result<Allocation, CovError>)
    requires
        steps@.len() > 0,
        target_start <= target_end,
    ensures
        ({
            let lens = raw_lens(*index, steps@);
            let sbl = seen_before_last(lens, target_start as int);
            &&& lens[0] < target_start ==> (r matches Err(e) && e == CovError::IntervalOutOfRange)
            &&& lens[0] >= target_start && strict_interval && target_end - target_start < sbl ==> (
            r matches Err(e) && e == CovError::IntervalTooShort)
            &&& lens[0] >= target_start && (!strict_interval || target_end - target_start >= sbl)
                ==> (r matches Ok(a) && alloc_nodes_ok(
                *index,
                steps@,
                target_start as int,
                target_end as int,
                a.nodes@,
            ) && alloc_edges_ok(steps@, a.edges@))
        }),
{
    let ghost lens = raw_lens(*index, steps@);
    let ghost gstart = target_start as int;
    let ghost gend = target_end as int;
    let n = steps.len();
    let tl: u64 = target_end - target_start;
    let first_len = index.length_of(steps[0].id);
    if first_len < target_start {
        return Err(CovError::IntervalOutOfRange);
    }
    let mut nodes: Vec<(u64, u64)> = Vec::new();
    let mut edges: Vec<(u64, u64)> = Vec::new();
    let mut seen: u128 = 0;
    let mut i: usize = 0;
    while i < n
        invariant
            0 <= i <= n,
            n == steps@.len(),
            lens == raw_lens(*index, steps@),
            gstart == target_start as int,
            gend == target_end as int,
            tl == gend - gstart,
            lens[0] >= gstart,
            i < n ==> seen == prefix_attrib(lens, gstart, i as int),
            i == n ==> (!strict_interval || gend - gstart >= seen_before_last(lens, gstart)),
            seen <= (i as int) * (u64::MAX as int),
            nodes@.len() == i,
            forall|j: int|
                0 <= j < i ==> nodes@[j] == (steps@[j].id, eff_len(lens, gstart, gend, j) as u64),
            edges@.len() == if i < n {
                i as int
            } else {
                n - 1
            },
            forall|j: int| 0 <= j < edges@.len() ==> edges@[j] == edge_of(steps@[j], steps@[j + 1]),
        decreases n - i,
    {
        let sid = steps[i].id;
        let mut len = index.length_of(sid);
        proof {
            assert(lens[i as int] == index.len_of(steps@[i as int].id) as int);
        }
        if i == 0 {
            len = len - target_start;
        }
        if i == n - 1 {
            proof {
                lemma_prefix_attrib_full(lens, gstart);
                assert(seen == seen_before_last(lens, gstart));
            }
            if seen > tl as u128 {
                if strict_interval {
                    return Err(CovError::IntervalTooShort);
                }
                len = 0;
            } else {
                len = tl - (seen as u64);
            }
            proof {
                assert(len == eff_len(lens, gstart, gend, i as int));
            }
        } else {
            proof {
                assert(len == eff_len(lens, gstart, gend, i as int));
            }
        }
        nodes.push((sid, len));
        if i < n - 1 {
            let e = if steps[i].forward {
                (sid, steps[i + 1].id)
            } else {
                (steps[i + 1].id, sid)
            };
            edges.push(e);
            proof {
                assert(e == edge_of(steps@[i as int], steps@[i as int + 1]));
            }
        }
        proof {
            assert(seen + len <= (i as int + 1) * (u64::MAX as int)) by (nonlinear_arith)
                requires
                    seen <= (i as int) * (u64::MAX as int),
                    len <= u64::MAX,
                    i >= 0,
            {}
            assert((i as int + 1) * (u64::MAX as int) < u128::MAX) by (nonlinear_arith)
                requires
                    0 <= i < n <= usize::MAX,
                    usize::MAX <= u64::MAX,
            {}
            if i < n - 1 {
                lemma_prefix_attrib_step(lens, gstart, gend, i as int);
            }
        }
        seen = seen + (len as u128);
        i += 1;
    }
    Ok(Allocation { nodes, edges })
}

proof fn lemma_sum_of_nonneg(s: Seq<int>)
    requires
        forall|i: int| 0 <= i < s.len() ==> s[i] >= 0,
    ensures
        sum_of(s) >= 0,
    decreases s.len(),
{
    if s.len() > 0 {
        lemma_sum_of_nonneg(s.drop_last());
    }
}

proof fn lemma_eff_prefix_sum(lens: Seq<int>, start: int, end: int, i: int)
    requires
        0 <= i <= lens.len() - 1,
    ensures
        sum_of(Seq::new(i as nat, |j: int| eff_len(lens, start, end, j))) == prefix_attrib(
            lens,
            start,
            i,
        ),
    decreases i,
{
    if i > 0 {
        lemma_eff_prefix_sum(lens, start, end, i - 1);
        let s1 = Seq::new(i as nat, |j: int| eff_len(lens, start, end, j));
        assert(s1.drop_last() =~= Seq::new((i - 1) as nat, |j: int| eff_len(lens, start, end, j)));
        assert(s1.last() == eff_len(lens, start, end, i - 1));
        lemma_prefix_attrib_step(lens, start, end, i - 1);
    }
}

/// Law: over one walk, the attributed node lengths sum to the declared
/// interval length whenever that is at least the length the walk attributes
/// before its last node, and to that walk-derived total otherwise (the
/// silent widening of an interval declared too short).
pub proof fn lemma_attributed_sum(lens: Seq<int>, start: int, end: int)
    requires
        lens.len() > 0,
    ensures
        sum_of(Seq::new(lens.len(), |i: int| eff_len(lens, start, end, i))) == if end - start
            >= seen_before_last(lens, start) {
            end - start
        } else {
            seen_before_last(lens, start)
        },
{
    let n = lens.len() as int;
    let effs = Seq::new(lens.len(), |i: int| eff_len(lens, start, end, i));
    lemma_eff_prefix_sum(lens, start, end, n - 1);
    lemma_prefix_attrib_full(lens, start);
    assert(effs.drop_last() =~= Seq::new((n - 1) as nat, |j: int| eff_len(lens, start, end, j)));
    assert(effs.last() == eff_len(lens, start, end, n - 1));
}

/// The total length carried by a list of node events.
pub open spec fn events_len_sum(nodes: Seq<(u64, u64)>) -> int {
    sum_of(nodes.map_values(|e: (u64, u64)| e.1 as int))
}

/// Law: the node events a successful allocation emits for one walk carry a
/// total length of exactly `target_end - target_start`, except when the
/// declared interval is shorter than what the walk attributes before its
/// last node; then they carry exactly that walk-derived total.
pub proof fn lemma_allocation_sum(
    index: GraphIndex,
    steps: Seq<Step>,
    start: int,
    end: int,
    nodes: Seq<(u64, u64)>,
)
    requires
        steps.len() > 0,
        alloc_nodes_ok(index, steps, start, end, nodes),
        raw_lens(index, steps)[0] >= start,
        0 <= start <= end <= u64::MAX,
    ensures
        events_len_sum(nodes) == if end - start >= seen_before_last(
            raw_lens(index, steps),
            start,
        ) {
            end - start
        } else {
            seen_before_last(raw_lens(index, steps), start)
        },
{
    let lens = raw_lens(index, steps);
    lemma_attributed_sum(lens, start, end);
    let mapped = nodes.map_values(|e: (u64, u64)| e.1 as int);
    assert forall|i: int| 0 <= i < steps.len() implies #[trigger] mapped[i] == Seq::new(
        lens.len(),
        |j: int| eff_len(lens, start, end, j),
    )[i] by {
        assert(nodes[i] == (steps[i].id, eff_len(lens, start, end, i) as u64));
        if i == lens.len() - 1 {
            assert(forall|j: int|
                0 <= j < lens.len() ==> #[trigger] lens[j] == index.len_of(steps[j].id) as int);
            if lens.len() > 1 {
                let interior = lens.subrange(1, lens.len() - 1);
                assert(forall|j: int|
                    0 <= j < interior.len() ==> #[trigger] interior[j] == lens[j + 1]);
                lemma_sum_of_nonneg(interior);
            }
            assert(seen_before_last(lens, start) >= 0);
            assert(0 <= eff_len(lens, start, end, i) <= u64::MAX);
        } else if i == 0 {
            assert(eff_len(lens, start, end, i) == lens[0] - start);
            assert(0 <= eff_len(lens, start, end, i) <= u64::MAX);
        } else {
            assert(eff_len(lens, start, end, i) == lens[i]);
            assert(0 <= eff_len(lens, start, end, i) <= u64::MAX);
        }
    }
    assert(nodes.map_values(|e: (u64, u64)| e.1 as int) =~= Seq::new(
        lens.len(),
        |i: int| eff_len(lens, start, end, i),
    ));
}

/// Law: a single-node walk aligned from offset 0 to its node's full raw
/// length is attributed exactly that raw length.
pub proof fn lemma_single_node_full(l: int)
    requires
        l >= 0,
    ensures
        eff_len(seq![l], 0, l, 0) == l,
{
}

/// A valid path denotes at least one traversal.
pub proof fn lemma_path_valid_nonempty(p: Seq<u8>)
    requires
        path_valid(p),
    ensures
        path_steps(p).len() >= 1,
{
    crate::scan::lemma_split_by_len(p, crate::scan::marker_sel());
    assert(crate::walk::path_parts(p)[0].len() == 0);
    if crate::walk::path_seps(p).len() == 0 {
        assert(crate::walk::path_parts(p).len() == 1);
        assert(crate::walk::path_parts(p)[0] == p);
    }
}

/// Decodes one alignment record and attributes its coverage, returning the
/// node events `(node id, effective length)` in walk order. An unaligned
/// record (path `*`) yields no events and no error, and the declared
/// interval is tolerated (silently widened) when it is shorter than the
/// walk-derived total.
pub fn for_each_step(index: &GraphIndex, line: &[u8]) -> (r: Result<Vec<(u64, u64)>, CovError>)
    requires
        line_shape_ok(line@),
    ensures
        ({
            let fs = fields_of(line@);
            &&& fs[5] == star() ==> (r matches Ok(v) && v@ == Seq::<(u64, u64)>::empty())
            &&& fs[5] != star() && !interval_ok(fs) ==> (r matches Err(e) && e
                == CovError::MalformedInterval)
            &&& fs[5] != star() && interval_ok(fs) && !path_valid(fs[5]) ==> (r matches Err(e) && e
                == CovError::MalformedPath)
            &&& fs[5] != star() && interval_ok(fs) && path_valid(fs[5]) ==> ({
                let steps = path_steps(fs[5]);
                let lens = raw_lens(*index, steps);
                &&& lens[0] < dec_val(fs[7]) ==> (r matches Err(e) && e
                    == CovError::IntervalOutOfRange)
                &&& lens[0] >= dec_val(fs[7]) ==> (r matches Ok(v) && alloc_nodes_ok(
                    *index,
                    steps,
                    dec_val(fs[7]),
                    dec_val(fs[8]),
                    v@,
                ))
            })
        }),
{
    let decoded = match crate::walk::decode_line(line) {
        Err(e) => {
            return Err(e);
        },
        Ok(None) => {
            let empty: Vec<(u64, u64)> = Vec::new();
            return Ok(empty);
        },
        Ok(Some(d)) => d,
    };
    proof {
        lemma_path_valid_nonempty(fields_of(line@)[5]);
    }
    match allocate(index, &decoded.steps, decoded.target_start, decoded.target_end, false) {
        Err(e) => Err(e),
        Ok(a) => Ok(a.nodes),
    }
}

} // verus!
