//! Walk decoding: turns the path field and target-interval bounds of one
//! alignment record into an ordered sequence of signed node traversals.

use crate::scan::{
    dec_val, is_u64_decimal, lemma_split_by_len, marker_sel, parse_u64, seps_by, split_by,
    split_bytes_by, tab_sel, views_of,
};
use crate::CovError;
use vstd::prelude::*;

verus! {

/// One traversal of a walk: a node id and the orientation it is crossed in
/// (`forward` for `>`, reverse for `<`).
#[derive(Clone, Copy, Debug, PartialEq, Eq, Structural)]
pub struct Step {
    pub id: u64,
    pub forward: bool,
}

/// The pieces of a path field, split at every orientation marker. A valid
/// path starts with a marker, so the first piece is empty and piece `i + 1`
/// is the node-id token paired with marker `i`.
pub open spec fn path_parts(p: Seq<u8>) -> Seq<Seq<u8>> {
    split_by(p, marker_sel())
}

/// The orientation markers of a path field, in order.
pub open spec fn path_seps(p: Seq<u8>) -> Seq<u8> {
    seps_by(p, marker_sel())
}

/// Path grammar: one or more groups of an orientation marker followed by a
/// node-id token, each token a decimal integer within `u64` range. Equivalent
/// to: the path is nonempty, every token has a marker before it, and the
/// token count equals the marker count.
pub open spec fn path_valid(p: Seq<u8>) -> bool {
    let parts = path_parts(p);
    p.len() > 0 && parts[0].len() == 0 && (forall|i: int|
        1 <= i < parts.len() ==> is_u64_decimal(#[trigger] parts[i]))
}

/// The traversals denoted by a valid path field: token `i` paired with the
/// marker that precedes it.
pub open spec fn path_steps(p: Seq<u8>) -> Seq<Step> {
    let parts = path_parts(p);
    let seps = path_seps(p);
    Seq::new((parts.len() - 1) as nat, |i: int| Step {
        id: dec_val(parts[i + 1]) as u64,
        forward: seps[i] == 62,
    })
}

/// Decodes a path field into its traversal list. Fails with `MalformedPath`
/// exactly when the field does not meet the path grammar.
pub fn decode_path(p: &[u8]) -> (r: Result<Vec<Step>, CovError>)
    ensures
        r is Ok <==> path_valid(p@),
        r matches Ok(v) ==> v@ == path_steps(p@),
        r matches Err(e) ==> e == CovError::MalformedPath,
{
    let (parts, seps) = split_bytes_by(p, true);
    proof {
        lemma_split_by_len(p@, marker_sel());
        assert(views_of(parts@).len() == parts@.len());
    }
    if p.len() == 0 {
        return Err(CovError::MalformedPath);
    }
    if parts[0].len() != 0 {
        proof {
            assert(path_parts(p@)[0] == parts@[0]@);
        }
        return Err(CovError::MalformedPath);
    }
    let mut steps: Vec<Step> = Vec::new();
    let n = parts.len();
    let mut i: usize = 1;
    while i < n
        invariant
            1 <= i <= n,
            n == parts@.len(),
            views_of(parts@) == path_parts(p@),
            seps@ == path_seps(p@),
            seps@.len() + 1 == n,
            forall|j: int| 1 <= j < i ==> is_u64_decimal(#[trigger] path_parts(p@)[j]),
            steps@.len() == i - 1,
            forall|j: int|
                0 <= j < i - 1 ==> #[trigger] steps@[j] == (Step {
                    id: dec_val(path_parts(p@)[j + 1]) as u64,
                    forward: path_seps(p@)[j] == 62,
                }),
        decreases n - i,
    {
        proof {
            assert(path_parts(p@)[i as int] == parts@[i as int]@);
        }
        match parse_u64(parts[i].as_slice()) {
            None => {
                return Err(CovError::MalformedPath);
            },
            Some(id) => {
                let fwd = seps[i - 1] == 62;
                steps.push(Step { id, forward: fwd });
            },
        }
        i += 1;
    }
    proof {
        assert(path_valid(p@));
        assert(steps@ =~= path_steps(p@));
    }
    Ok(steps)
}

/// The tab-separated fields of a record line.
pub open spec fn fields_of(line: Seq<u8>) -> Seq<Seq<u8>> {
    split_by(line, tab_sel())
}

/// The literal `*` path field, denoting an unaligned record.
pub open spec fn star() -> Seq<u8> {
    seq![42u8]
}

/// The line carries the fields the decoder reads: a path field, and, unless
/// the path is `*`, the two target-interval fields. A record without them
/// is rejected before the decoder is called.
pub open spec fn line_shape_ok(line: Seq<u8>) -> bool {
    let fs = fields_of(line);
    fs.len() > 5 && (fs[5] == star() || fs.len() > 8)
}

/// A decoded alignment record: the walk and the declared half-open target
/// interval over the concatenated walk lengths.
pub struct Decoded {
    pub steps: Vec<Step>,
    pub target_start: u64,
    pub target_end: u64,
}

/// The two interval fields parse as integers and do not cross.
pub open spec fn interval_ok(fs: Seq<Seq<u8>>) -> bool {
    is_u64_decimal(fs[7]) && is_u64_decimal(fs[8]) && dec_val(fs[7]) <= dec_val(fs[8])
}

/// Decodes one alignment record. Returns `Ok(None)` for an unaligned record
/// (path `*`), `MalformedInterval` when a target bound is not a valid integer
/// or the declared end precedes the declared start, `MalformedPath` when the
/// path field breaks the path grammar, and the decoded walk otherwise.
pub fn decode_line(line: &[u8]) -> (r: Result<Option<Decoded>, CovError>)
    requires
        line_shape_ok(line@),
    ensures
        ({
            let fs = fields_of(line@);
            &&& fs[5] == star() ==> (r matches Ok(d) && d is None)
            &&& fs[5] != star() && !interval_ok(fs) ==> (r matches Err(e) && e
                == CovError::MalformedInterval)
            &&& fs[5] != star() && interval_ok(fs) && !path_valid(fs[5]) ==> (r matches Err(e) && e
                == CovError::MalformedPath)
            &&& fs[5] != star() && interval_ok(fs) && path_valid(fs[5]) ==> (r matches Ok(d)
                && d matches Some(dd) && dd.steps@ == path_steps(fs[5]) && dd.target_start
                == dec_val(fs[7]) && dd.target_end == dec_val(fs[8]))
        }),
{
    let (fields, _seps) = split_bytes_by(line, false);
    let ghost fs = fields_of(line@);
    proof {
        assert(views_of(fields@).len() == fields@.len());
        assert(fs[5] == fields@[5]@);
    }
    let f5 = &fields[5];
    if f5.len() == 1 && f5[0] == 42 {
        proof {
            assert(f5@ =~= star());
        }
        return Ok(None);
    }
    proof {
        assert(f5@ != star());
        assert(fs.len() > 8);
        assert(fs[7] == fields@[7]@);
        assert(fs[8] == fields@[8]@);
    }
    let target_start = match parse_u64(fields[7].as_slice()) {
        None => {
            return Err(CovError::MalformedInterval);
        },
        Some(v) => v,
    };
    let target_end = match parse_u64(fields[8].as_slice()) {
        None => {
            return Err(CovError::MalformedInterval);
        },
        Some(v) => v,
    };
    if target_end < target_start {
        return Err(CovError::MalformedInterval);
    }
    let steps = match decode_path(fields[5].as_slice()) {
        Err(e) => {
            return Err(e);
        },
        Ok(s) => s,
    };
    Ok(Some(Decoded { steps, target_start, target_end }))
}

/// The composite query-group key of a record: fields 0, 2 and 3 joined with
/// `:`. Records sharing this key split their coverage in weighted mode.
pub open spec fn key_of(fs: Seq<Seq<u8>>) -> Seq<u8> {
    fs[0] + seq![58u8] + fs[2] + seq![58u8] + fs[3]
}

/// Builds the composite query-group key of a record, or `None` for a record
/// with fewer than four fields.
pub fn query_key(line: &[u8]) -> (r: Option<Vec<u8>>)
    ensures
        fields_of(line@).len() >= 4 ==> (r matches Some(k) && k@ == key_of(fields_of(line@))),
        fields_of(line@).len() < 4 ==> r is None,
{
    let (fields, _seps) = split_bytes_by(line, false);
    proof {
        assert(views_of(fields@).len() == fields@.len());
    }
    if fields.len() < 4 {
        return None;
    }
    proof {
        assert(fields_of(line@)[0] == fields@[0]@);
        assert(fields_of(line@)[2] == fields@[2]@);
        assert(fields_of(line@)[3] == fields@[3]@);
    }
    let mut key: Vec<u8> = Vec::new();
    append_bytes(&mut key, fields[0].as_slice());
    key.push(58);
    append_bytes(&mut key, fields[2].as_slice());
    key.push(58);
    append_bytes(&mut key, fields[3].as_slice());
    proof {
        assert(key@ =~= key_of(fields_of(line@)));
    }
    Some(key)
}

/// Checks that a record line carries the fields the decoder reads, so a
/// caller can reject a truncated record before decoding it.
pub fn line_shape_check(line: &[u8]) -> (r: bool)
    ensures
        r == line_shape_ok(line@),
{
    let (fields, _seps) = split_bytes_by(line, false);
    proof {
        assert(views_of(fields@).len() == fields@.len());
    }
    if fields.len() <= 5 {
        return false;
    }
    proof {
        assert(fields_of(line@)[5] == fields@[5]@);
    }
    if fields.len() > 8 {
        return true;
    }
    let f5 = &fields[5];
    if f5.len() == 1 && f5[0] == 42 {
        proof {
            assert(f5@ =~= star());
        }
        true
    } else {
        proof {
            assert(f5@ != star());
        }
        false
    }
}

/// The number of tab-separated fields of a line. Callers use it to reject a
/// record that lacks the fields the decoder reads.
pub fn field_count(line: &[u8]) -> (r: usize)
    ensures
        r == fields_of(line@).len(),
{
    let (fields, _seps) = split_bytes_by(line, false);
    proof {
        assert(views_of(fields@).len() == fields@.len());
    }
    fields.len()
}

/// Appends every byte of `src` to `dst`.
fn append_bytes(dst: &mut Vec<u8>, src: &[u8])
    ensures
        final(dst)@ == old(dst)@ + src@,
{
    let mut i: usize = 0;
    proof {
        assert(old(dst)@ + src@.take(0) =~= old(dst)@);
    }
    while i < src.len()
        invariant
            0 <= i <= src@.len(),
            dst@ == old(dst)@ + src@.take(i as int),
        decreases src@.len() - i,
    {
        dst.push(src[i]);
        proof {
            assert(old(dst)@ + src@.take(i as int + 1) =~= (old(dst)@ + src@.take(i as int)).push(
                src@[i as int],
            ));
        }
        i += 1;
    }
    proof {
        assert(src@.take(src@.len() as int) =~= src@);
    }
}

} // verus!
