//! Trusted interface to the regex engine, and verified range-restricted
//! replacement around it.
//!
//! The engine's results are deterministic functions of the pattern text,
//! the flags, the haystack and the replacement, so they are given names
//! (`re_matches`, `re_replaced_all`, `re_replaced_first`) that the
//! trusted wrappers apply; a `Pattern` carries the plain values the
//! names speak of next to the compiled form.

use vstd::prelude::*;

use crate::block::ByteRange;
use crate::edit::spliced;

verus! {

#[verifier::external_type_specification]
#[verifier::external_body]
pub struct ExRegex(regex::bytes::Regex);

/// Whether the engine accepts the pattern under the given flags.
pub uninterp spec fn re_compiles(pattern: Seq<u8>, ignore_case: bool, multiline: bool) -> bool;

/// The successive non-overlapping matches the engine finds in `hay`.
pub uninterp spec fn re_matches(
    pattern: Seq<u8>,
    ignore_case: bool,
    multiline: bool,
    hay: Seq<u8>,
) -> Seq<ByteRange>;

/// `hay` with every match replaced by the expansion of `rep`.
pub uninterp spec fn re_replaced_all(
    pattern: Seq<u8>,
    ignore_case: bool,
    multiline: bool,
    hay: Seq<u8>,
    rep: Seq<u8>,
) -> Seq<u8>;

/// `hay` with its first match replaced by the expansion of `rep`.
pub uninterp spec fn re_replaced_first(
    pattern: Seq<u8>,
    ignore_case: bool,
    multiline: bool,
    hay: Seq<u8>,
    rep: Seq<u8>,
) -> Seq<u8>;

/// A compiled pattern together with the plain values it was built from:
/// the pattern text and the two flags, which is what the contracts of
/// everything downstream speak of.  The fields are private so that only
/// `build_regex` can construct a value: the compiled form always
/// corresponds to the carried plain values, which is what entitles the
/// wrappers below to state their results over them.
pub struct Pattern {
    re: regex::bytes::Regex,
    pattern: Vec<u8>,
    ignore_case: bool,
    multiline: bool,
}

impl Pattern {
    /// The pattern text this value was compiled from.
    pub closed spec fn pattern_view(self) -> Seq<u8> {
        self.pattern@
    }

    /// Whether it was compiled case-insensitive.
    pub closed spec fn ignore_case_view(self) -> bool {
        self.ignore_case
    }

    /// Whether it was compiled with multi-line mode.
    pub closed spec fn multiline_view(self) -> bool {
        self.multiline
    }

    /// The pattern text, for display.
    pub fn pattern_text(&self) -> (r: &Vec<u8>)
        ensures
            r@ == self.pattern_view(),
    {
        &self.pattern
    }
}

/// Relies on regex::bytes::RegexBuilder::build: compiles the pattern
/// with the requested case-insensitivity and multi-line flags exactly
/// when the engine accepts it, and keeps the plain values beside the
/// compiled form.
#[verifier::external_body]
pub fn build_regex(pattern: &[u8], ignore_case: bool, multiline: bool) -> (r: Option<Pattern>)
    ensures
        r is Some <==> re_compiles(pattern@, ignore_case, multiline),
        match r {
            Some(p) => p.pattern_view() == pattern@ && p.ignore_case_view() == ignore_case
                && p.multiline_view() == multiline,
            None => true,
        },
{
    let text = std::str::from_utf8(pattern).ok()?;
    let re = regex::bytes::RegexBuilder::new(text)
        .case_insensitive(ignore_case)
        .multi_line(multiline)
        .build()
        .ok()?;
    Some(Pattern { re, pattern: pattern.to_vec(), ignore_case, multiline })
}

/// Relies on Regex::find_iter: it yields exactly the pattern's
/// successive non-overlapping matches in ascending order, each within
/// the haystack.
#[verifier::external_body]
pub(crate) fn regex_find_iter(p: &Pattern, hay: &[u8]) -> (r: Vec<ByteRange>)
    ensures
        r@ == re_matches(p.pattern_view(), p.ignore_case_view(), p.multiline_view(), hay@),
        forall|i: int|
            0 <= i < r@.len() ==> (#[trigger] r@[i]).wf() && r@[i].end <= hay@.len(),
        forall|i: int, j: int|
            0 <= i < j < r@.len() ==> (#[trigger] r@[i]).end <= (#[trigger] r@[j]).start,
{
    let mut out = Vec::new();
    for m in p.re.find_iter(hay) {
        out.push(ByteRange { start: m.start(), end: m.end() });
    }
    out
}

/// Relies on Regex::replace_all: every match in `hay` replaced by the
/// replacement text, with `$group` references expanded.
#[verifier::external_body]
pub(crate) fn regex_replace_all(p: &Pattern, hay: &[u8], rep: &[u8]) -> (r: Vec<u8>)
    ensures
        r@ == re_replaced_all(p.pattern_view(), p.ignore_case_view(), p.multiline_view(), hay@, rep@),
{
    p.re.replace_all(hay, rep).into_owned()
}

/// Relies on Regex::replace: the first match in `hay` replaced by the
/// replacement text, with `$group` references expanded.
#[verifier::external_body]
pub(crate) fn regex_replace_first(p: &Pattern, hay: &[u8], rep: &[u8]) -> (r: Vec<u8>)
    ensures
        r@ == re_replaced_first(p.pattern_view(), p.ignore_case_view(), p.multiline_view(), hay@, rep@),
{
    p.re.replace(hay, rep).into_owned()
}

impl Pattern {
    /// The pattern's matches in `hay`, exactly as the engine reports
    /// them: ascending, non-overlapping, within the haystack.
    pub fn find_ranges(&self, hay: &[u8]) -> (r: Vec<ByteRange>)
        ensures
            r@ == re_matches(self.pattern_view(), self.ignore_case_view(), self.multiline_view(), hay@),
            forall|i: int|
                0 <= i < r@.len() ==> (#[trigger] r@[i]).wf() && r@[i].end <= hay@.len(),
            forall|i: int, j: int|
                0 <= i < j < r@.len() ==> (#[trigger] r@[i]).end <= (#[trigger] r@[j]).start,
    {
        regex_find_iter(self, hay)
    }
}

/// What replacing the first match inside `rng` of `hay` yields: the
/// haystack unchanged for a zero-length or out-of-bounds range, the
/// rewritten splice otherwise.
pub open spec fn replace_in_range_spec(
    pattern: Seq<u8>,
    ignore_case: bool,
    multiline: bool,
    hay: Seq<u8>,
    rng: ByteRange,
    rep: Seq<u8>,
) -> Seq<u8> {
    if rng.start >= rng.end || rng.end > hay.len() {
        hay
    } else {
        spliced(
            hay,
            rng.start as int,
            rng.end as int,
            re_replaced_first(
                pattern,
                ignore_case,
                multiline,
                hay.subrange(rng.start as int, rng.end as int),
                rep,
            ),
        )
    }
}

/// Replaces the first regex match strictly inside `rng`, splitting the
/// result: the untouched text before the range, the rewritten range, and
/// the untouched text after it.  A zero-length or out-of-bounds range is
/// legal and leaves the haystack whole in the first component.
pub fn replace_in_range_partitioned(
    p: &Pattern,
    haystack: &[u8],
    rng: ByteRange,
    rep: &[u8],
) -> (r: (Vec<u8>, Vec<u8>, Vec<u8>))
    ensures
        (rng.start >= rng.end || rng.end > haystack@.len()) ==> r.0@ == haystack@ && r.1@.len()
            == 0 && r.2@.len() == 0,
        (rng.start < rng.end && rng.end <= haystack@.len()) ==> r.0@ == haystack@.subrange(
            0,
            rng.start as int,
        ) && r.1@ == re_replaced_first(
            p.pattern_view(),
            p.ignore_case_view(),
            p.multiline_view(),
            haystack@.subrange(rng.start as int, rng.end as int),
            rep@,
        ) && r.2@ == haystack@.subrange(rng.end as int, haystack@.len() as int),
{
    if rng.start >= rng.end || rng.end > haystack.len() {
        let whole = copy_range(haystack, 0, haystack.len());
        proof {
            assert(whole@ =~= haystack@);
        }
        return (whole, Vec::new(), Vec::new());
    }
    let before = copy_range(haystack, 0, rng.start);
    let target = &haystack[rng.start..rng.end];
    let after = copy_range(haystack, rng.end, haystack.len());
    let replaced = regex_replace_first(p, target, rep);
    proof {
        assert(target@ =~= haystack@.subrange(rng.start as int, rng.end as int));
    }
    (before, replaced, after)
}

/// Replaces the first regex match strictly inside `rng` of the haystack,
/// returning the whole text with only that range rewritten; an invalid
/// range returns the haystack unchanged.
pub fn replace_in_range(p: &Pattern, haystack: &[u8], rng: ByteRange, rep: &[u8]) -> (r: Vec<u8>)
    ensures
        r@ == replace_in_range_spec(
            p.pattern_view(),
            p.ignore_case_view(),
            p.multiline_view(),
            haystack@,
            rng,
            rep@,
        ),
{
    if rng.start >= rng.end || rng.end > haystack.len() {
        let whole = copy_range(haystack, 0, haystack.len());
        proof {
            assert(whole@ =~= haystack@);
        }
        return whole;
    }
    let target = &haystack[rng.start..rng.end];
    let replaced = regex_replace_first(p, target, rep);
    proof {
        assert(target@ =~= haystack@.subrange(rng.start as int, rng.end as int));
    }
    crate::edit::splice_bytes(haystack, rng.start, rng.end, replaced.as_slice())
}

fn copy_range(src: &[u8], from: usize, to: usize) -> (r: Vec<u8>)
    requires
        from <= to <= src@.len(),
    ensures
        r@ == src@.subrange(from as int, to as int),
{
    let mut out: Vec<u8> = Vec::new();
    let mut i: usize = from;
    while i < to
        invariant
            from <= i <= to <= src@.len(),
            out@ == src@.subrange(from as int, i as int),
        decreases to - i,
    {
        out.push(src[i]);
        proof {
            assert(out@ =~= src@.subrange(from as int, i + 1));
        }
        i = i + 1;
    }
    out
}

} // verus!
