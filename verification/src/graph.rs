//! Graph loading: parses segment records out of graph-file lines and builds
//! the node-length index that the coverage allocator reads.

use crate::scan::{
    dec_val, is_u64_decimal, parse_u64, split_by, split_bytes_by, tab_sel, trim_bytes, trimmed,
    views_of,
};
use crate::CovError;
use vstd::prelude::*;

verus! {

/// A graph node: its identifier and the byte length of its sequence.
#[derive(Clone, Copy, Debug, PartialEq, Eq, Structural)]
pub struct Segment {
    pub id: u64,
    pub length: u64,
}

/// The trimmed line is a segment record: it starts with `S` and has at least
/// an id field and a sequence field. Lines of any other shape are ignored.
pub open spec fn is_seg_line(t: Seq<u8>) -> bool {
    t.len() > 0 && t[0] == 83 && split_by(t, tab_sel()).len() >= 3
}

/// The id field of a segment line is a decimal integer within `u64` range.
pub open spec fn seg_line_ok(t: Seq<u8>) -> bool {
    is_u64_decimal(split_by(t, tab_sel())[1])
}

/// The segment a valid segment line denotes: field 1 is the id, the node
/// length is the byte length of field 2, the sequence.
pub open spec fn seg_of(t: Seq<u8>) -> Segment {
    Segment {
        id: dec_val(split_by(t, tab_sel())[1]) as u64,
        length: split_by(t, tab_sel())[2].len() as u64,
    }
}

/// Every segment record among the (trimmed) lines has a well-formed id.
pub open spec fn gfa_lines_ok(lines: Seq<Seq<u8>>) -> bool {
    forall|i: int|
        0 <= i < lines.len() ==> (is_seg_line(trimmed(#[trigger] lines[i])) ==> seg_line_ok(
            trimmed(lines[i]),
        ))
}

/// The segments denoted by the graph-file lines, in file order.
pub open spec fn gfa_segments(lines: Seq<Seq<u8>>) -> Seq<Segment>
    decreases lines.len(),
{
    if lines.len() == 0 {
        Seq::<Segment>::empty()
    } else {
        let rest = gfa_segments(lines.drop_last());
        let t = trimmed(lines.last());
        if is_seg_line(t) {
            rest.push(seg_of(t))
        } else {
            rest
        }
    }
}

/// Ids never decrease along the sequence.
pub open spec fn sorted_by_id(s: Seq<Segment>) -> bool {
    forall|i: int, j: int| 0 <= i < j < s.len() ==> s[i].id <= s[j].id
}

/// Parses graph-file lines into the segment table, ordered by node id.
/// Lines are trimmed of surrounding whitespace; a line that does not start
/// with `S` or lacks the id or sequence field is ignored. Fails with
/// `MalformedGraph` exactly when some segment record's id field is not a
/// decimal integer within `u64` range.
pub fn parse_gfa(lines: &Vec<Vec<u8>>) -> (r: Result<Vec<Segment>, CovError>)
    ensures
        r is Ok <==> gfa_lines_ok(views_of(lines@)),
        r matches Ok(v) ==> sorted_by_id(v@) && v@.to_multiset() == gfa_segments(
            views_of(lines@),
        ).to_multiset(),
        r matches Ok(v) ==> (forall|id: u64|
            #[trigger] len_in(v@, id) == len_in(gfa_segments(views_of(lines@)), id)),
        r matches Err(e) ==> e == CovError::MalformedGraph,
{
    broadcast use vstd::seq_lib::to_multiset_insert, vstd::seq_lib::to_multiset_build;

    let ghost lviews = views_of(lines@);
    let mut out: Vec<Segment> = Vec::new();
    let mut k: usize = 0;
    while k < lines.len()
        invariant
            0 <= k <= lines@.len(),
            lviews == views_of(lines@),
            lviews.len() == lines@.len(),
            forall|i: int|
                0 <= i < k ==> (is_seg_line(trimmed(#[trigger] lviews[i])) ==> seg_line_ok(
                    trimmed(lviews[i]),
                )),
            sorted_by_id(out@),
            out@.to_multiset() == gfa_segments(lviews.take(k as int)).to_multiset(),
            forall|id: u64|
                #[trigger] len_in(out@, id) == len_in(gfa_segments(lviews.take(k as int)), id),
        decreases lines@.len() - k,
    {
        proof {
            assert(lviews[k as int] == lines@[k as int]@);
            assert(lviews.take(k as int + 1).drop_last() =~= lviews.take(k as int));
            assert(lviews.take(k as int + 1).last() == lviews[k as int]);
        }
        let t = trim_bytes(lines[k].as_slice());
        if t.len() == 0 || t[0] != 83 {
            proof {
                assert(!is_seg_line(trimmed(lviews[k as int])));
                assert(gfa_segments(lviews.take(k as int + 1)) == gfa_segments(
                    lviews.take(k as int),
                ));
            }
        } else {
            let (fields, _seps) = split_bytes_by(t, false);
            proof {
                assert(views_of(fields@).len() == fields@.len());
            }
            if fields.len() < 3 {
                proof {
                    assert(!is_seg_line(trimmed(lviews[k as int])));
                    assert(gfa_segments(lviews.take(k as int + 1)) == gfa_segments(
                        lviews.take(k as int),
                    ));
                }
            } else {
                proof {
                    assert(split_by(t@, tab_sel())[1] == fields@[1]@);
                    assert(split_by(t@, tab_sel())[2] == fields@[2]@);
                }
                let id = match parse_u64(fields[1].as_slice()) {
                    None => {
                        return Err(CovError::MalformedGraph);
                    },
                    Some(v) => v,
                };
                let length = fields[2].len() as u64;
                let seg = Segment { id, length };
                proof {
                    assert(seg == seg_of(trimmed(lviews[k as int])));
                }
                let mut p: usize = 0;
                while p < out.len() && out[p].id <= id
                    invariant
                        0 <= p <= out@.len(),
                        forall|i: int| 0 <= i < p ==> out@[i].id <= id,
                    decreases out@.len() - p,
                {
                    p += 1;
                }
                proof {
                    assert(p < out@.len() ==> out@[p as int].id > id);
                }
                let ghost before = out@;
                out.insert(p, seg);
                proof {
                    assert(out@ == before.insert(p as int, seg));
                    assert(is_seg_line(trimmed(lviews[k as int])));
                    assert(gfa_segments(lviews.take(k as int + 1)) == gfa_segments(
                        lviews.take(k as int),
                    ).push(seg));
                    vstd::seq_lib::to_multiset_insert(before, p as int, seg);
                    assert(out@.to_multiset() == before.to_multiset().insert(seg));
                    assert forall|i: int| p <= i < before.len() implies before[i].id != seg.id by {
                        assert(before[p as int].id > id);
                    }
                    lemma_len_in_insert(before, p as int, seg);
                    let rest = gfa_segments(lviews.take(k as int));
                    assert(rest.push(seg) =~= rest.insert(rest.len() as int, seg));
                    lemma_len_in_insert(rest, rest.len() as int, seg);
                    assert forall|id2: u64|
                        #[trigger] len_in(out@, id2) == len_in(
                            gfa_segments(lviews.take(k as int + 1)),
                            id2,
                        ) by {
                        assert(len_in(out@, id2) == (if id2 == seg.id {
                            seg.length
                        } else {
                            len_in(before, id2)
                        }));
                        assert(len_in(rest.push(seg), id2) == (if id2 == seg.id {
                            seg.length
                        } else {
                            len_in(rest, id2)
                        }));
                    }
                    vstd::seq_lib::to_multiset_build(gfa_segments(lviews.take(k as int)), seg);
                    assert(gfa_segments(lviews.take(k as int + 1)).to_multiset() == gfa_segments(
                        lviews.take(k as int),
                    ).to_multiset().insert(seg));
                    assert(sorted_by_id(out@)) by {
                        assert(forall|i: int, j: int|
                            0 <= i < j < out@.len() ==> out@[i].id <= out@[j].id) by {
                            assert forall|i: int, j: int|
                                0 <= i < j < out@.len() implies out@[i].id <= out@[j].id by {
                                if j < p {
                                    assert(out@[i] == before[i] && out@[j] == before[j]);
                                } else if i > p {
                                    assert(out@[i] == before[i - 1] && out@[j] == before[j - 1]);
                                } else if i == p && j > p {
                                    assert(out@[j] == before[j - 1]);
                                } else if j == p && i < p {
                                    assert(out@[i] == before[i]);
                                } else if i < p && j > p {
                                    assert(out@[i] == before[i] && out@[j] == before[j - 1]);
                                }
                            }
                        }
                    }
                }
            }
        }
        k += 1;
    }
    proof {
        assert(lviews.take(lviews.len() as int) =~= lviews);
    }
    Ok(out)
}

/// Spec-level position of the last record of a given id, `-1` when absent.
/// The last record wins so that a later segment record overrides an earlier
/// one of the same id, as a map insert would.
pub open spec fn last_pos_of(s: Seq<Segment>, id: u64) -> int
    decreases s.len(),
{
    if s.len() == 0 {
        -1
    } else if s.last().id == id {
        s.len() - 1
    } else {
        last_pos_of(s.drop_last(), id)
    }
}

pub broadcast proof fn lemma_last_pos_of(s: Seq<Segment>, id: u64)
    ensures
        -1 <= #[trigger] last_pos_of(s, id) < s.len(),
        last_pos_of(s, id) >= 0 ==> s[last_pos_of(s, id)].id == id,
        last_pos_of(s, id) < 0 ==> (forall|i: int| 0 <= i < s.len() ==> s[i].id != id),
    decreases s.len(),
{
    if s.len() > 0 && s.last().id != id {
        lemma_last_pos_of(s.drop_last(), id);
        assert(forall|i: int| 0 <= i < s.len() - 1 ==> s[i] == s.drop_last()[i]);
    }
}

/// Spec-level node length: the length of the last record of the id, or 0
/// when the id is outside the graph (such a node is silently ignored).
pub open spec fn len_in(s: Seq<Segment>, id: u64) -> u64 {
    if last_pos_of(s, id) >= 0 {
        s[last_pos_of(s, id)].length
    } else {
        0
    }
}

/// Inserting a record behind every record of its id makes it the record its
/// id resolves to, and leaves every other id's lookup unchanged.
pub proof fn lemma_len_in_insert(s: Seq<Segment>, p: int, g: Segment)
    requires
        0 <= p <= s.len(),
        forall|i: int| p <= i < s.len() ==> s[i].id != g.id,
    ensures
        forall|id: u64|
            #[trigger] len_in(s.insert(p, g), id) == if id == g.id {
                g.length
            } else {
                len_in(s, id)
            },
    decreases s.len() - p,
{
    let s2 = s.insert(p, g);
    if p == s.len() {
        assert(s2 =~= s.push(g));
        assert(s2.drop_last() =~= s);
        assert forall|id: u64|
            #[trigger] len_in(s2, id) == (if id == g.id {
                g.length
            } else {
                len_in(s, id)
            }) by {
            lemma_last_pos_of(s, id);
            if id == g.id {
                assert(last_pos_of(s2, id) == s.len());
            } else {
                assert(s2.last().id != id);
                assert(last_pos_of(s2, id) == last_pos_of(s, id));
                if last_pos_of(s, id) >= 0 {
                    assert(s2[last_pos_of(s, id)] == s[last_pos_of(s, id)]);
                }
            }
        }
    } else {
        assert(s2.last() == s.last());
        assert(s2.drop_last() =~= s.drop_last().insert(p, g));
        assert(forall|i: int| p <= i < s.drop_last().len() ==> s.drop_last()[i].id != g.id);
        lemma_len_in_insert(s.drop_last(), p, g);
        assert forall|id: u64|
            #[trigger] len_in(s2, id) == (if id == g.id {
                g.length
            } else {
                len_in(s, id)
            }) by {
            lemma_last_pos_of(s.drop_last().insert(p, g), id);
            lemma_last_pos_of(s.drop_last(), id);
            assert(len_in(s.drop_last().insert(p, g), id) == (if id == g.id {
                g.length
            } else {
                len_in(s.drop_last(), id)
            }));
            if s.last().id == id {
                assert(last_pos_of(s2, id) == s2.len() - 1);
                assert(last_pos_of(s, id) == s.len() - 1);
                assert(s[s.len() - 1].id != g.id);
            } else {
                assert(last_pos_of(s2, id) == last_pos_of(s2.drop_last(), id));
                assert(last_pos_of(s, id) == last_pos_of(s.drop_last(), id));
                if last_pos_of(s2.drop_last(), id) >= 0 {
                    assert(s2[last_pos_of(s2.drop_last(), id)] == s2.drop_last()[last_pos_of(
                        s2.drop_last(),
                        id,
                    )]);
                }
                if last_pos_of(s.drop_last(), id) >= 0 {
                    assert(s[last_pos_of(s.drop_last(), id)] == s.drop_last()[last_pos_of(
                        s.drop_last(),
                        id,
                    )]);
                }
            }
        }
    }
}

/// The node-length index: the segment table of the loaded graph, looked up
/// by node id. A node id that the graph does not declare has length 0 and
/// no position, so its coverage is silently dropped rather than an error.
pub struct GraphIndex {
    segs: Vec<Segment>,
}

impl GraphIndex {
    /// The segment records backing the index, in the order they were given.
    pub closed spec fn segments(self) -> Seq<Segment> {
        self.segs@
    }

    /// The index position a node id resolves to, `-1` when absent.
    pub open spec fn pos_of(self, id: u64) -> int {
        last_pos_of(self.segments(), id)
    }

    /// The id is declared by the graph.
    pub open spec fn contains(self, id: u64) -> bool {
        self.pos_of(id) >= 0
    }

    /// The declared length of a node, 0 for an undeclared id.
    pub open spec fn len_of(self, id: u64) -> u64 {
        len_in(self.segments(), id)
    }

    /// Builds the index over a segment table.
    pub fn build(segs: &Vec<Segment>) -> (r: GraphIndex)
        ensures
            r.segments() == segs@,
    {
        let mut copy: Vec<Segment> = Vec::new();
        let mut i: usize = 0;
        while i < segs.len()
            invariant
                0 <= i <= segs@.len(),
                copy@ == segs@.take(i as int),
            decreases segs@.len() - i,
        {
            copy.push(segs[i]);
            proof {
                assert(segs@.take(i as int + 1) =~= segs@.take(i as int).push(segs@[i as int]));
            }
            i += 1;
        }
        proof {
            assert(segs@.take(segs@.len() as int) =~= segs@);
        }
        GraphIndex { segs: copy }
    }

    /// The number of segment records.
    pub fn seg_count(&self) -> (r: usize)
        ensures
            r == self.segments().len(),
    {
        self.segs.len()
    }

    /// The segment record at a position.
    pub fn seg_at(&self, i: usize) -> (r: Segment)
        requires
            i < self.segments().len(),
        ensures
            r == self.segments()[i as int],
    {
        self.segs[i]
    }

    /// The index position of a node id, or `None` for an undeclared id.
    pub fn position_of(&self, id: u64) -> (r: Option<usize>)
        ensures
            match r {
                Some(p) => self.pos_of(id) == p,
                None => self.pos_of(id) < 0,
            },
    {
        let mut i: usize = self.segs.len();
        proof {
            assert(self.segs@.take(self.segs@.len() as int) =~= self.segs@);
        }
        while i > 0
            invariant
                0 <= i <= self.segs@.len(),
                last_pos_of(self.segs@, id) == last_pos_of(self.segs@.take(i as int), id),
            decreases i,
        {
            proof {
                assert(self.segs@.take(i as int).last() == self.segs@[i as int - 1]);
                assert(self.segs@.take(i as int).drop_last() =~= self.segs@.take(i as int - 1));
            }
            if self.segs[i - 1].id == id {
                return Some(i - 1);
            }
            i -= 1;
        }
        proof {
            assert(self.segs@.take(0) =~= Seq::<Segment>::empty());
        }
        None
    }

    /// The declared length of a node, 0 for an undeclared id.
    pub fn length_of(&self, id: u64) -> (r: u64)
        ensures
            r == self.len_of(id),
    {
        proof {
            lemma_last_pos_of(self.segments(), id);
        }
        match self.position_of(id) {
            Some(p) => self.segs[p].length,
            None => 0,
        }
    }
}

} // verus!
