//! Parsing search-tool output of the form `path`, then `line:column:text`
//! rows, into plain match records.

use vstd::prelude::*;

verus! {

pub open spec fn is_ws(b: u8) -> bool {
    b == 32 || (9 <= b <= 13)
}

pub open spec fn is_digit(b: u8) -> bool {
    48 <= b <= 57
}

/// The first index at or after `from` whose byte is not whitespace, or
/// the length.
pub open spec fn first_non_ws(p: Seq<u8>, from: int) -> int
    decreases p.len() - from,
{
    if from < 0 || from >= p.len() {
        p.len() as int
    } else if !is_ws(p[from]) {
        from
    } else {
        first_non_ws(p, from + 1)
    }
}

/// One past the last non-whitespace byte, or zero.
pub open spec fn last_non_ws_end(p: Seq<u8>) -> int
    decreases p.len(),
{
    if p.len() == 0 {
        0
    } else if !is_ws(p.last()) {
        p.len() as int
    } else {
        last_non_ws_end(p.drop_last())
    }
}

/// The first index in `[from, to)` holding byte `b`, or `to`.
pub open spec fn first_byte_at(p: Seq<u8>, b: u8, from: int, to: int) -> int
    decreases to - from,
{
    if from < 0 || from >= to || from >= p.len() {
        to
    } else if p[from] == b {
        from
    } else {
        first_byte_at(p, b, from + 1, to)
    }
}

pub open spec fn all_digits(s: Seq<u8>) -> bool {
    forall|i: int| 0 <= i < s.len() ==> is_digit(s[i])
}

/// The number a digit string denotes, most significant digit first.
pub open spec fn dec_val(s: Seq<u8>) -> int
    decreases s.len(),
{
    if s.len() == 0 {
        0
    } else {
        dec_val(s.drop_last()) * 10 + (s.last() - 48)
    }
}

/// A parseable `line:column:text` row: after trimming, a nonempty digit
/// run up to the first colon, then a nonempty digit run up to the next
/// colon, both fitting the machine word.
pub open spec fn match_line_ok(p: Seq<u8>) -> bool {
    let s = first_non_ws(p, 0);
    let e = last_non_ws_end(p);
    let c1 = first_byte_at(p, 58, s, e);
    let c2 = first_byte_at(p, 58, c1 + 1, e);
    &&& s < c1
    &&& c1 < e
    &&& all_digits(p.subrange(s, c1))
    &&& dec_val(p.subrange(s, c1)) <= usize::MAX
    &&& c1 + 1 < c2
    &&& all_digits(p.subrange(c1 + 1, c2))
    &&& dec_val(p.subrange(c1 + 1, c2)) <= usize::MAX
}

/// One reported match: its one-based line number and the column span,
/// which this output format gives as a single column.
#[derive(Clone, Copy, PartialEq, Eq, Structural, Debug)]
pub struct Match {
    pub lnum: usize,
    pub col_start: usize,
    pub col_end: usize,
}

/// What parsing one row yields.
pub open spec fn match_of_line(p: Seq<u8>) -> Match {
    let s = first_non_ws(p, 0);
    let e = last_non_ws_end(p);
    let c1 = first_byte_at(p, 58, s, e);
    let c2 = first_byte_at(p, 58, c1 + 1, e);
    Match {
        lnum: dec_val(p.subrange(s, c1)) as usize,
        col_start: dec_val(p.subrange(c1 + 1, c2)) as usize,
        col_end: dec_val(p.subrange(c1 + 1, c2)) as usize,
    }
}

fn scan_non_ws(p: &[u8], from: usize) -> (r: usize)
    requires
        from <= p@.len(),
    ensures
        r == first_non_ws(p@, from as int),
        from <= r <= p@.len(),
{
    let mut i: usize = from;
    while i < p.len()
        invariant
            from <= i <= p@.len(),
            first_non_ws(p@, from as int) == first_non_ws(p@, i as int),
        decreases p@.len() - i,
    {
        let b = p[i];
        if !(b == 32 || (9 <= b && b <= 13)) {
            return i;
        }
        i = i + 1;
    }
    i
}

fn scan_trim_end(p: &[u8]) -> (r: usize)
    ensures
        r == last_non_ws_end(p@),
        r <= p@.len(),
{
    let mut i: usize = p.len();
    proof {
        assert(p@.subrange(0, p@.len() as int) =~= p@);
    }
    while i > 0
        invariant
            i <= p@.len(),
            last_non_ws_end(p@) == last_non_ws_end(p@.subrange(0, i as int)),
        decreases i,
    {
        let b = p[i - 1];
        proof {
            assert(p@.subrange(0, i as int).drop_last() =~= p@.subrange(0, i - 1));
            assert(p@.subrange(0, i as int).last() == p@[i - 1]);
        }
        if !(b == 32 || (9 <= b && b <= 13)) {
            return i;
        }
        i = i - 1;
    }
    i
}

fn scan_byte(p: &[u8], b: u8, from: usize, to: usize) -> (r: usize)
    requires
        from <= to <= p@.len(),
    ensures
        r == first_byte_at(p@, b, from as int, to as int),
        from <= r <= to,
{
    let mut i: usize = from;
    while i < to
        invariant
            from <= i <= to,
            to <= p@.len(),
            first_byte_at(p@, b, from as int, to as int) == first_byte_at(
                p@,
                b,
                i as int,
                to as int,
            ),
        decreases to - i,
    {
        if p[i] == b {
            return i;
        }
        i = i + 1;
    }
    i
}

proof fn lemma_dec_nonneg(s: Seq<u8>)
    requires
        all_digits(s),
    ensures
        dec_val(s) >= 0,
    decreases s.len(),
{
    if s.len() > 0 {
        assert(all_digits(s.drop_last())) by {
            assert forall|i: int| 0 <= i < s.drop_last().len() implies is_digit(
                s.drop_last()[i],
            ) by {
                assert(s.drop_last()[i] == s[i]);
            }
        }
        lemma_dec_nonneg(s.drop_last());
    }
}

/// Every digit-string prefix denotes no more than the whole string.
proof fn lemma_dec_prefix(s: Seq<u8>, i: int)
    requires
        all_digits(s),
        0 <= i <= s.len(),
    ensures
        0 <= dec_val(s.subrange(0, i)) <= dec_val(s),
    decreases s.len() - i,
{
    assert(all_digits(s.subrange(0, i))) by {
        assert forall|k: int| 0 <= k < i implies is_digit(s.subrange(0, i)[k]) by {
            assert(s.subrange(0, i)[k] == s[k]);
        }
    }
    lemma_dec_nonneg(s.subrange(0, i));
    if i < s.len() {
        lemma_dec_prefix(s, i + 1);
        assert(s.subrange(0, i + 1).drop_last() =~= s.subrange(0, i));
        assert(s.subrange(0, i + 1).last() == s[i]);
        assert(dec_val(s.subrange(0, i + 1)) == dec_val(s.subrange(0, i)) * 10 + (s[i] - 48));
    } else {
        assert(s.subrange(0, i) =~= s);
    }
}

fn parse_dec(p: &[u8], from: usize, to: usize) -> (v: usize)
    requires
        from <= to <= p@.len(),
        all_digits(p@.subrange(from as int, to as int)),
        dec_val(p@.subrange(from as int, to as int)) <= usize::MAX,
    ensures
        v == dec_val(p@.subrange(from as int, to as int)),
{
    let ghost field = p@.subrange(from as int, to as int);
    let mut acc: usize = 0;
    let mut i: usize = from;
    while i < to
        invariant
            from <= i <= to <= p@.len(),
            field == p@.subrange(from as int, to as int),
            all_digits(field),
            dec_val(field) <= usize::MAX,
            acc == dec_val(field.subrange(0, i - from)),
        decreases to - i,
    {
        proof {
            lemma_dec_prefix(field, i - from + 1);
            assert(field.subrange(0, i - from + 1).drop_last() =~= field.subrange(0, i - from));
            assert(field.subrange(0, i - from + 1).last() == field[i - from]);
            assert(field[i - from] == p@[i as int]);
        }
        let d = p[i];
        acc = acc * 10 + ((d - 48) as usize);
        i = i + 1;
    }
    proof {
        assert(field.subrange(0, to - from) =~= field);
    }
    acc
}

impl Match {
    /// Parses one `line:column:text` row: the line number before the
    /// first colon, the column between the first and second colons, both
    /// bounds of the column span equal.
    pub fn from(value: &[u8]) -> (r: Match)
        requires
            match_line_ok(value@),
        ensures
            r == match_of_line(value@),
    {
        let s = scan_non_ws(value, 0);
        let e = scan_trim_end(value);
        proof {
            assert(s < e) by {
                let c1 = first_byte_at(value@, 58, s as int, e as int);
                assert(s < c1 && c1 < e);
            }
        }
        let c1 = scan_byte(value, 58, s, e);
        let c2 = scan_byte(value, 58, c1 + 1, e);
        let lnum = parse_dec(value, s, c1);
        let col = parse_dec(value, c1 + 1, c2);
        Match { lnum, col_start: col, col_end: col }
    }
}

/// One file's worth of search output: the path heading, then the match
/// rows.
pub struct FileMatches {
    pub path: Vec<u8>,
    pub matches: Vec<Match>,
}

proof fn lemma_first_byte_bounds(p: Seq<u8>, b: u8, from: int, to: int)
    requires
        from <= to,
    ensures
        from <= first_byte_at(p, b, from, to) <= to,
    decreases to - from,
{
    if 0 <= from < to && from < p.len() && p[from] != b {
        lemma_first_byte_bounds(p, b, from + 1, to);
    }
}

/// Every row after `from` parses, rows separated by newlines, a trailing
/// newline allowed.
pub open spec fn rest_lines_ok(p: Seq<u8>, from: int) -> bool
    decreases p.len() - from,
    via rest_lines_ok_dec
{
    if from < 0 || from >= p.len() {
        true
    } else {
        let nl = first_byte_at(p, 10, from, p.len() as int);
        match_line_ok(p.subrange(from, nl)) && (nl >= p.len() || rest_lines_ok(p, nl + 1))
    }
}

#[via_fn]
proof fn rest_lines_ok_dec(p: Seq<u8>, from: int) {
    if 0 <= from < p.len() {
        lemma_first_byte_bounds(p, 10, from, p.len() as int);
    }
}

/// The match records the rows after `from` denote.
pub open spec fn rest_matches(p: Seq<u8>, from: int) -> Seq<Match>
    decreases p.len() - from,
    via rest_matches_dec
{
    if from < 0 || from >= p.len() {
        Seq::empty()
    } else {
        let nl = first_byte_at(p, 10, from, p.len() as int);
        seq![match_of_line(p.subrange(from, nl))] + (if nl >= p.len() {
            Seq::<Match>::empty()
        } else {
            rest_matches(p, nl + 1)
        })
    }
}

#[via_fn]
proof fn rest_matches_dec(p: Seq<u8>, from: int) {
    if 0 <= from < p.len() {
        lemma_first_byte_bounds(p, 10, from, p.len() as int);
    }
}

/// The whole input parses: a heading line, then match rows.
pub open spec fn file_matches_ok(p: Seq<u8>) -> bool {
    let nl = first_byte_at(p, 10, 0, p.len() as int);
    p.len() > 0 && (nl >= p.len() || rest_lines_ok(p, nl + 1))
}

fn parse_rest(p: &[u8], from: usize, out: &mut Vec<Match>)
    requires
        from <= p@.len(),
        rest_lines_ok(p@, from as int),
    ensures
        final(out)@ == old(out)@ + rest_matches(p@, from as int),
    decreases p@.len() - from,
{
    if from < p.len() {
        let nl = scan_byte(p, 10, from, p.len());
        let line = &p[from..nl];
        proof {
            assert(line@ =~= p@.subrange(from as int, nl as int));
        }
        let m = Match::from(line);
        out.push(m);
        if nl < p.len() {
            parse_rest(p, nl + 1, out);
        }
        assert(out@ =~= old(out)@ + rest_matches(p@, from as int));
    } else {
        assert(out@ =~= old(out)@ + rest_matches(p@, from as int));
    }
}

impl FileMatches {
    /// Parses a file's search output: the first line, trimmed, is the
    /// path; each further line is one match row.
    pub fn from(value: &[u8]) -> (r: FileMatches)
        requires
            file_matches_ok(value@),
        ensures
            ({
                let nl = first_byte_at(value@, 10, 0, value@.len() as int);
                let head = value@.subrange(0, nl);
                &&& r.path@ == (if first_non_ws(head, 0) <= last_non_ws_end(head) {
                    head.subrange(first_non_ws(head, 0), last_non_ws_end(head))
                } else {
                    Seq::<u8>::empty()
                })
                &&& r.matches@ == (if nl >= value@.len() {
                    Seq::<Match>::empty()
                } else {
                    rest_matches(value@, nl + 1)
                })
            }),
    {
        let nl = scan_byte(value, 10, 0, value.len());
        let head = &value[0..nl];
        proof {
            assert(head@ =~= value@.subrange(0, nl as int));
        }
        let hs = scan_non_ws(head, 0);
        let he = scan_trim_end(head);
        let path = if hs <= he {
            slice_to_vec(head, hs, he)
        } else {
            Vec::new()
        };
        let mut matches: Vec<Match> = Vec::new();
        if nl < value.len() {
            parse_rest(value, nl + 1, &mut matches);
        }
        FileMatches { path, matches }
    }
}

fn slice_to_vec(src: &[u8], from: usize, to: usize) -> (r: Vec<u8>)
    requires
        from <= to <= src@.len(),
    ensures
        r@ == src@.subrange(from as int, to as int),
{
    let mut out: Vec<u8> = Vec::new();
    let mut i: usize = from;
    while i < to
        invariant
            from <= i <= to <= src@.len(),
            out@ == src@.subrange(from as int, i as int),
        decreases to - i,
    {
        out.push(src[i]);
        proof {
            assert(out@ =~= src@.subrange(from as int, i + 1));
        }
        i = i + 1;
    }
    out
}

} // verus!
