//! Byte-level scanning primitives shared by the graph and alignment parsers:
//! decimal integers, separator splitting, and whitespace trimming.

use vstd::prelude::*;

verus! {

/// The byte is an ASCII decimal digit.
pub open spec fn is_digit(b: u8) -> bool {
    48 <= b && b <= 57
}

/// Numeric value of a digit byte.
pub open spec fn digit_val(b: u8) -> int {
    b - 48
}

/// Every byte of `s` is a decimal digit.
pub open spec fn all_digits(s: Seq<u8>) -> bool {
    forall|i: int| 0 <= i < s.len() ==> is_digit(#[trigger] s[i])
}

/// The integer denoted by a sequence of decimal digit bytes, most significant
/// digit first.
pub open spec fn dec_val(s: Seq<u8>) -> int
    decreases s.len(),
{
    if s.len() == 0 {
        0
    } else {
        dec_val(s.drop_last()) * 10 + digit_val(s.last())
    }
}

/// `s` is the decimal notation of a value representable as a `u64`:
/// nonempty, digits only, and within range.
pub open spec fn is_u64_decimal(s: Seq<u8>) -> bool {
    s.len() > 0 && all_digits(s) && dec_val(s) <= u64::MAX
}

pub proof fn lemma_dec_val_nonneg(s: Seq<u8>)
    requires
        all_digits(s),
    ensures
        dec_val(s) >= 0,
    decreases s.len(),
{
    if s.len() > 0 {
        assert(all_digits(s.drop_last()));
        lemma_dec_val_nonneg(s.drop_last());
    }
}

/// A digit prefix never denotes more than the whole digit string.
pub proof fn lemma_dec_val_prefix_le(s: Seq<u8>, i: int)
    requires
        all_digits(s),
        0 <= i <= s.len(),
    ensures
        dec_val(s.take(i)) <= dec_val(s),
    decreases s.len() - i,
{
    if i < s.len() {
        lemma_dec_val_prefix_le(s, i + 1);
        assert(s.take(i + 1).drop_last() =~= s.take(i));
        assert(all_digits(s.take(i)));
        lemma_dec_val_nonneg(s.take(i));
        assert(dec_val(s.take(i + 1)) == dec_val(s.take(i)) * 10 + digit_val(s.take(i + 1).last()));
    } else {
        assert(s.take(i) =~= s);
    }
}

/// Parses a whole byte slice as a decimal `u64`. Returns `None` exactly when
/// the slice is empty, holds a non-digit byte, or denotes a value above
/// `u64::MAX`.
pub fn parse_u64(s: &[u8]) -> (r: Option<u64>)
    ensures
        match r {
            Some(v) => is_u64_decimal(s@) && v == dec_val(s@),
            None => !is_u64_decimal(s@),
        },
{
    if s.len() == 0 {
        return None;
    }
    let mut acc: u64 = 0;
    let mut i: usize = 0;
    while i < s.len()
        invariant
            0 <= i <= s@.len(),
            all_digits(s@.take(i as int)),
            acc == dec_val(s@.take(i as int)),
        decreases s@.len() - i,
    {
        let b = s[i];
        if b < 48 || b > 57 {
            assert(!is_digit(s@[i as int]));
            return None;
        }
        let d: u64 = (b - 48) as u64;
        proof {
            assert(s@.take(i as int + 1).drop_last() =~= s@.take(i as int));
            assert(s@.take(i as int + 1).last() == s@[i as int]);
        }
        if acc > (u64::MAX - d) / 10 {
            proof {
                lemma_dec_val_nonneg(s@.take(i as int));
                assert(acc * 10 + d > u64::MAX) by (nonlinear_arith)
                    requires
                        acc > (u64::MAX - d) / 10,
                        0 <= d <= 9,
                        acc >= 0,
                {}
                if all_digits(s@) {
                    lemma_dec_val_prefix_le(s@, i as int + 1);
                }
            }
            return None;
        }
        acc = acc * 10 + d;
        i += 1;
    }
    proof {
        assert(s@.take(s@.len() as int) =~= s@);
    }
    Some(acc)
}

/// Splits `s` at every byte satisfying `f`, keeping empty pieces, as
/// `str::split` does: the result always has one more piece than there are
/// separator bytes.
pub open spec fn split_by(s: Seq<u8>, f: spec_fn(u8) -> bool) -> Seq<Seq<u8>>
    decreases s.len(),
{
    if s.len() == 0 {
        seq![Seq::<u8>::empty()]
    } else if f(s[0]) {
        seq![Seq::<u8>::empty()] + split_by(s.skip(1), f)
    } else {
        let rest = split_by(s.skip(1), f);
        seq![seq![s[0]] + rest[0]] + rest.skip(1)
    }
}

/// The separator bytes of `s` under `f`, in order.
pub open spec fn seps_by(s: Seq<u8>, f: spec_fn(u8) -> bool) -> Seq<u8>
    decreases s.len(),
{
    if s.len() == 0 {
        Seq::<u8>::empty()
    } else if f(s[0]) {
        seq![s[0]] + seps_by(s.skip(1), f)
    } else {
        seps_by(s.skip(1), f)
    }
}

pub proof fn lemma_split_by_len(s: Seq<u8>, f: spec_fn(u8) -> bool)
    ensures
        split_by(s, f).len() == seps_by(s, f).len() + 1,
    decreases s.len(),
{
    if s.len() > 0 {
        lemma_split_by_len(s.skip(1), f);
    }
}

/// Extending the scanned bytes by one separator opens a fresh empty piece.
pub proof fn lemma_split_by_push_sep(s: Seq<u8>, f: spec_fn(u8) -> bool, b: u8)
    requires
        f(b),
    ensures
        split_by(s.push(b), f) == split_by(s, f).push(Seq::<u8>::empty()),
        seps_by(s.push(b), f) == seps_by(s, f).push(b),
    decreases s.len(),
{
    lemma_split_by_len(s, f);
    if s.len() == 0 {
        assert(s.push(b).skip(1) =~= Seq::<u8>::empty());
        assert(s =~= Seq::<u8>::empty());
        assert(split_by(Seq::<u8>::empty(), f) == seq![Seq::<u8>::empty()]);
        assert(seps_by(Seq::<u8>::empty(), f) == Seq::<u8>::empty());
        assert(split_by(s.push(b), f) =~~= split_by(s, f).push(Seq::<u8>::empty()));
        assert(seps_by(s.push(b), f) =~= seps_by(s, f).push(b));
    } else {
        assert(s.push(b).skip(1) =~= s.skip(1).push(b));
        lemma_split_by_push_sep(s.skip(1), f, b);
        assert(s.push(b)[0] == s[0]);
        if f(s[0]) {
            assert(split_by(s.push(b), f) =~~= split_by(s, f).push(Seq::<u8>::empty()));
            assert(seps_by(s.push(b), f) =~= seps_by(s, f).push(b));
        } else {
            lemma_split_by_len(s.skip(1), f);
            assert(split_by(s.skip(1).push(b), f)[0] == split_by(s.skip(1), f)[0]);
            assert(split_by(s.push(b), f) =~~= split_by(s, f).push(Seq::<u8>::empty()));
            assert(seps_by(s.push(b), f) =~= seps_by(s, f).push(b));
        }
    }
}

/// Extending the scanned bytes by a non-separator extends the last piece.
pub proof fn lemma_split_by_push_other(s: Seq<u8>, f: spec_fn(u8) -> bool, b: u8)
    requires
        !f(b),
    ensures
        split_by(s.push(b), f) == split_by(s, f).update(
            split_by(s, f).len() - 1,
            split_by(s, f).last().push(b),
        ),
        seps_by(s.push(b), f) == seps_by(s, f),
    decreases s.len(),
{
    lemma_split_by_len(s, f);
    if s.len() == 0 {
        assert(s.push(b).skip(1) =~= Seq::<u8>::empty());
        assert(s =~= Seq::<u8>::empty());
        assert(split_by(Seq::<u8>::empty(), f) == seq![Seq::<u8>::empty()]);
        assert(seps_by(Seq::<u8>::empty(), f) == Seq::<u8>::empty());
        assert(split_by(s.push(b), f) =~~= seq![seq![b]]);
        assert(seps_by(s.push(b), f) =~= Seq::<u8>::empty());
        assert(split_by(s.push(b), f) =~~= split_by(s, f).update(
            split_by(s, f).len() - 1,
            split_by(s, f).last().push(b),
        ));
    } else {
        assert(s.push(b).skip(1) =~= s.skip(1).push(b));
        lemma_split_by_push_other(s.skip(1), f, b);
        lemma_split_by_len(s.skip(1), f);
        assert(s.push(b)[0] == s[0]);
        if f(s[0]) {
            assert(split_by(s.push(b), f) =~~= split_by(s, f).update(
                split_by(s, f).len() - 1,
                split_by(s, f).last().push(b),
            ));
        } else {
            let rest = split_by(s.skip(1), f);
            if rest.len() == 1 {
                assert(split_by(s.push(b), f) =~~= split_by(s, f).update(
                    split_by(s, f).len() - 1,
                    split_by(s, f).last().push(b),
                ));
            } else {
                assert(split_by(s.skip(1).push(b), f)[0] == rest[0]);
                assert(split_by(s.push(b), f) =~~= split_by(s, f).update(
                    split_by(s, f).len() - 1,
                    split_by(s, f).last().push(b),
                ));
            }
        }
        assert(seps_by(s.push(b), f) =~= seps_by(s, f));
    }
}

/// The byte is ASCII whitespace, as `str::trim` removes at the ends of a
/// record line.
pub open spec fn is_space(b: u8) -> bool {
    b == 32 || (9 <= b && b <= 13)
}

/// `s` without its leading whitespace.
pub open spec fn trim_front(s: Seq<u8>) -> Seq<u8>
    decreases s.len(),
{
    if s.len() > 0 && is_space(s[0]) {
        trim_front(s.skip(1))
    } else {
        s
    }
}

/// `s` without its trailing whitespace.
pub open spec fn trim_back(s: Seq<u8>) -> Seq<u8>
    decreases s.len(),
{
    if s.len() > 0 && is_space(s.last()) {
        trim_back(s.drop_last())
    } else {
        s
    }
}

/// `s` without leading and trailing whitespace.
pub open spec fn trimmed(s: Seq<u8>) -> Seq<u8> {
    trim_back(trim_front(s))
}

/// Strips leading and trailing ASCII whitespace from a byte slice.
pub fn trim_bytes(s: &[u8]) -> (r: &[u8])
    ensures
        r@ == trimmed(s@),
{
    let mut lo: usize = 0;
    proof {
        assert(s@.skip(0) =~= s@);
    }
    while lo < s.len() && (s[lo] == 32 || (9 <= s[lo] && s[lo] <= 13))
        invariant
            0 <= lo <= s@.len(),
            trim_front(s@) == trim_front(s@.skip(lo as int)),
        decreases s@.len() - lo,
    {
        proof {
            assert(s@.skip(lo as int)[0] == s@[lo as int]);
            assert(s@.skip(lo as int).skip(1) =~= s@.skip(lo as int + 1));
        }
        lo += 1;
    }
    proof {
        assert(trim_front(s@) == s@.skip(lo as int));
    }
    let mut hi: usize = s.len();
    while hi > lo && (s[hi - 1] == 32 || (9 <= s[hi - 1] && s[hi - 1] <= 13))
        invariant
            lo <= hi <= s@.len(),
            trim_front(s@) == s@.skip(lo as int),
            trim_back(s@.skip(lo as int)) == trim_back(s@.subrange(lo as int, hi as int)),
        decreases hi,
    {
        proof {
            assert(s@.subrange(lo as int, hi as int).last() == s@[hi - 1]);
            assert(s@.subrange(lo as int, hi as int).drop_last() =~= s@.subrange(
                lo as int,
                hi as int - 1,
            ));
        }
        hi -= 1;
    }
    proof {
        assert(s@.skip(lo as int) =~= s@.subrange(lo as int, s@.len() as int));
        assert(trim_back(s@.subrange(lo as int, hi as int)) == s@.subrange(lo as int, hi as int));
    }
    vstd::slice::slice_subrange(s, lo, hi)
}

/// Byte-for-byte equality of two slices.
pub fn bytes_eq(a: &[u8], b: &[u8]) -> (r: bool)
    ensures
        r == (a@ == b@),
{
    if a.len() != b.len() {
        return false;
    }
    let mut i: usize = 0;
    while i < a.len()
        invariant
            0 <= i <= a@.len(),
            a@.len() == b@.len(),
            forall|j: int| 0 <= j < i ==> a@[j] == b@[j],
        decreases a@.len() - i,
    {
        if a[i] != b[i] {
            return false;
        }
        i += 1;
    }
    proof {
        assert(a@ =~= b@);
    }
    true
}

/// The byte is a tab, the field separator of graph and alignment records.
pub open spec fn tab_sel() -> spec_fn(u8) -> bool {
    |b: u8| b == 9
}

/// The byte is a traversal-orientation marker: `>` (forward) or `<` (reverse).
pub open spec fn marker_sel() -> spec_fn(u8) -> bool {
    |b: u8| b == 60 || b == 62
}

/// Selector used by the executable splitter: orientation markers when
/// `markers` is set, tabs otherwise.
pub open spec fn sel_of(markers: bool) -> spec_fn(u8) -> bool {
    if markers {
        marker_sel()
    } else {
        tab_sel()
    }
}

/// The views of a sequence of byte vectors.
pub open spec fn views_of(s: Seq<Vec<u8>>) -> Seq<Seq<u8>> {
    s.map_values(|v: Vec<u8>| v@)
}

/// Splits `s` on tabs (`markers` unset) or on orientation markers (`markers`
/// set), returning the pieces and the separator bytes in order.
pub fn split_bytes_by(s: &[u8], markers: bool) -> (r: (Vec<Vec<u8>>, Vec<u8>))
    ensures
        views_of(r.0@) == split_by(s@, sel_of(markers)),
        r.1@ == seps_by(s@, sel_of(markers)),
{
    let ghost f = sel_of(markers);
    let mut parts: Vec<Vec<u8>> = Vec::new();
    let mut seps: Vec<u8> = Vec::new();
    let mut cur: Vec<u8> = Vec::new();
    let mut i: usize = 0;
    while i < s.len()
        invariant
            0 <= i <= s@.len(),
            f == sel_of(markers),
            split_by(s@.take(i as int), f) == views_of(parts@).push(cur@),
            seps@ == seps_by(s@.take(i as int), f),
        decreases s@.len() - i,
    {
        let b = s[i];
        let is_sep = if markers {
            b == 60 || b == 62
        } else {
            b == 9
        };
        proof {
            assert(is_sep == f(b));
            assert(s@.take(i as int + 1) =~= s@.take(i as int).push(b));
        }
        if is_sep {
            proof {
                lemma_split_by_push_sep(s@.take(i as int), f, b);
            }
            parts.push(cur);
            cur = Vec::new();
            seps.push(b);
            proof {
                assert(split_by(s@.take(i as int + 1), f) =~~= views_of(parts@).push(cur@));
            }
        } else {
            proof {
                lemma_split_by_push_other(s@.take(i as int), f, b);
                lemma_split_by_len(s@.take(i as int), f);
            }
            cur.push(b);
            proof {
                assert(split_by(s@.take(i as int + 1), f) =~~= views_of(parts@).push(cur@));
            }
        }
        i += 1;
    }
    proof {
        assert(s@.take(s@.len() as int) =~= s@);
    }
    parts.push(cur);
    proof {
        assert(views_of(parts@) =~~= split_by(s@, f));
    }
    (parts, seps)
}

} // verus!
