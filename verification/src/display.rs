//! Building the printed output: colored spans, decimal numbers, and
//! `path:line[:column]:text` lines.

use vstd::prelude::*;

use crate::mapping::MatchRange;

verus! {

/// The foreground colors the output uses.
#[derive(Clone, Copy, PartialEq, Eq, Structural, Debug)]
pub enum Color {
    Red,
    Green,
    Magenta,
}

/// The ANSI escape that sets the foreground color: `ESC [ 3x m`.
pub open spec fn ansi_prefix(c: Color) -> Seq<u8> {
    match c {
        Color::Red => seq![27u8, 91u8, 51u8, 49u8, 109u8],
        Color::Green => seq![27u8, 91u8, 51u8, 50u8, 109u8],
        Color::Magenta => seq![27u8, 91u8, 51u8, 53u8, 109u8],
    }
}

/// The ANSI reset escape: `ESC [ 0 m`.
pub open spec fn ansi_reset() -> Seq<u8> {
    seq![27u8, 91u8, 48u8, 109u8]
}

pub open spec fn is_ascii_bytes(s: Seq<u8>) -> bool {
    forall|i: int| 0 <= i < s.len() ==> s[i] < 128
}

pub open spec fn is_cont(b: u8) -> bool {
    128 <= b <= 191
}

/// The bytes form a valid UTF-8 string, by the encoding's shortest-form
/// table: this is exactly the domain on which a lossy UTF-8 conversion
/// is the identity.
pub open spec fn is_utf8(s: Seq<u8>) -> bool
    decreases s.len(),
{
    if s.len() == 0 {
        true
    } else {
        let b0 = s[0];
        if b0 < 128 {
            is_utf8(s.drop_first())
        } else if 194 <= b0 <= 223 {
            s.len() >= 2 && is_cont(s[1]) && is_utf8(s.subrange(2, s.len() as int))
        } else if b0 == 224 {
            s.len() >= 3 && 160 <= s[1] <= 191 && is_cont(s[2]) && is_utf8(
                s.subrange(3, s.len() as int),
            )
        } else if (225 <= b0 <= 236) || b0 == 238 || b0 == 239 {
            s.len() >= 3 && is_cont(s[1]) && is_cont(s[2]) && is_utf8(
                s.subrange(3, s.len() as int),
            )
        } else if b0 == 237 {
            s.len() >= 3 && 128 <= s[1] <= 159 && is_cont(s[2]) && is_utf8(
                s.subrange(3, s.len() as int),
            )
        } else if b0 == 240 {
            s.len() >= 4 && 144 <= s[1] <= 191 && is_cont(s[2]) && is_cont(s[3]) && is_utf8(
                s.subrange(4, s.len() as int),
            )
        } else if 241 <= b0 <= 243 {
            s.len() >= 4 && is_cont(s[1]) && is_cont(s[2]) && is_cont(s[3]) && is_utf8(
                s.subrange(4, s.len() as int),
            )
        } else if b0 == 244 {
            s.len() >= 4 && 128 <= s[1] <= 143 && is_cont(s[2]) && is_cont(s[3]) && is_utf8(
                s.subrange(4, s.len() as int),
            )
        } else {
            false
        }
    }
}

/// The empty byte sequence is valid UTF-8.
pub proof fn lemma_empty_utf8()
    ensures
        is_utf8(Seq::<u8>::empty()),
{
}

/// ASCII text is valid UTF-8.
pub proof fn lemma_ascii_is_utf8(s: Seq<u8>)
    requires
        is_ascii_bytes(s),
    ensures
        is_utf8(s),
    decreases s.len(),
{
    if s.len() > 0 {
        assert(is_ascii_bytes(s.drop_first())) by {
            assert forall|i: int| 0 <= i < s.drop_first().len() implies s.drop_first()[i]
                < 128 by {
                assert(s.drop_first()[i] == s[i + 1]);
            }
        }
        lemma_ascii_is_utf8(s.drop_first());
    }
}

/// Text wrapped in the color's escape and the reset escape.
pub open spec fn painted(text: Seq<u8>, c: Color) -> Seq<u8> {
    ansi_prefix(c) + text + ansi_reset()
}

/// Relies on console::Style with forced styling: its display writes the
/// ANSI foreground escape, the text, and the reset escape.  The text is
/// carried through a lossy UTF-8 conversion, which is the identity
/// exactly on valid UTF-8 — hence the guard.
#[verifier::external_body]
fn paint(color: Color, text: &[u8]) -> (r: Vec<u8>)
    ensures
        is_utf8(text@) ==> r@ == painted(text@, color),
{
    let style = console::Style::new().force_styling(true).fg(
        match color {
            Color::Red => console::Color::Red,
            Color::Green => console::Color::Green,
            Color::Magenta => console::Color::Magenta,
        },
    );
    format!("{}", style.apply_to(String::from_utf8_lossy(text))).into_bytes()
}

/// The decimal digits of `n`, most significant first.
pub open spec fn dec_digits(n: int) -> Seq<u8>
    decreases n,
{
    if n < 10 {
        seq![(48 + if n >= 0 { n } else { 0 }) as u8]
    } else {
        dec_digits(n / 10).push((48 + n % 10) as u8)
    }
}

pub proof fn lemma_dec_digits_ascii(n: int)
    ensures
        is_ascii_bytes(dec_digits(n)),
    decreases n,
{
    if n >= 10 {
        lemma_dec_digits_ascii(n / 10);
        assert forall|i: int| 0 <= i < dec_digits(n).len() implies dec_digits(n)[i] < 128 by {
            if i < dec_digits(n / 10).len() {
                assert(dec_digits(n / 10)[i] < 128);
            }
        }
    }
}

fn push_decimal(n: usize, out: &mut Vec<u8>)
    ensures
        final(out)@ == old(out)@ + dec_digits(n as int),
    decreases n,
{
    if n < 10 {
        out.push(48 + (n as u8));
        assert(out@ =~= old(out)@ + dec_digits(n as int));
    } else {
        push_decimal(n / 10, out);
        out.push(48 + ((n % 10) as u8));
        assert(out@ =~= old(out)@ + dec_digits(n as int));
    }
}

/// The decimal rendering of `n` as bytes.
pub fn format_decimal(n: usize) -> (r: Vec<u8>)
    ensures
        r@ == dec_digits(n as int),
{
    let mut out: Vec<u8> = Vec::new();
    push_decimal(n, &mut out);
    out
}

/// A text split at a highlighted span: the bytes before it, the span
/// itself, and the bytes after it.
pub struct CodeDiff<'a> {
    pub before: &'a [u8],
    pub diff: &'a [u8],
    pub after: &'a [u8],
}

impl<'a> CodeDiff<'a> {
    /// A split given directly by its three parts.
    pub fn new_raw(before: &'a [u8], diff: &'a [u8], after: &'a [u8]) -> (r: CodeDiff<'a>)
        ensures
            r.before@ == before@,
            r.diff@ == diff@,
            r.after@ == after@,
    {
        CodeDiff { before, diff, after }
    }

    /// The display line of a match, split at the match's span within the
    /// line.
    pub fn new_line(source_code: &'a [u8], rng: &'a MatchRange) -> (r: CodeDiff<'a>)
        requires
            rng.abs_line_range.wf(),
            rng.abs_line_range.end <= source_code@.len(),
            rng.line_match_range.wf(),
            rng.line_match_range.end <= rng.abs_line_range.spec_len(),
        ensures
            r.before@ == source_code@.subrange(
                rng.abs_line_range.start as int,
                rng.abs_line_range.start + rng.line_match_range.start,
            ),
            r.diff@ == source_code@.subrange(
                rng.abs_line_range.start + rng.line_match_range.start,
                rng.abs_line_range.start + rng.line_match_range.end,
            ),
            r.after@ == source_code@.subrange(
                rng.abs_line_range.start + rng.line_match_range.end,
                rng.abs_line_range.end as int,
            ),
    {
        let line = &source_code[rng.abs_line_range.start..rng.abs_line_range.end];
        let r = CodeDiff {
            before: &line[0..rng.line_match_range.start],
            diff: &line[rng.line_match_range.start..rng.line_match_range.end],
            after: &line[rng.line_match_range.end..line.len()],
        };
        proof {
            assert(r.before@ =~= source_code@.subrange(
                rng.abs_line_range.start as int,
                rng.abs_line_range.start + rng.line_match_range.start,
            ));
            assert(r.diff@ =~= source_code@.subrange(
                rng.abs_line_range.start + rng.line_match_range.start,
                rng.abs_line_range.start + rng.line_match_range.end,
            ));
            assert(r.after@ =~= source_code@.subrange(
                rng.abs_line_range.start + rng.line_match_range.end,
                rng.abs_line_range.end as int,
            ));
        }
        r
    }

    /// A block's inner text, split at the match's block-relative span.
    pub fn new_block(block: &'a [u8], rng: &'a MatchRange) -> (r: CodeDiff<'a>)
        requires
            rng.block_match_range.wf(),
            rng.block_match_range.end <= block@.len(),
        ensures
            r.before@ == block@.subrange(0, rng.block_match_range.start as int),
            r.diff@ == block@.subrange(
                rng.block_match_range.start as int,
                rng.block_match_range.end as int,
            ),
            r.after@ == block@.subrange(rng.block_match_range.end as int, block@.len() as int),
    {
        let r = CodeDiff {
            before: &block[0..rng.block_match_range.start],
            diff: &block[rng.block_match_range.start..rng.block_match_range.end],
            after: &block[rng.block_match_range.end..block.len()],
        };
        proof {
            assert(r.before@ =~= block@.subrange(0, rng.block_match_range.start as int));
            assert(r.diff@ =~= block@.subrange(
                rng.block_match_range.start as int,
                rng.block_match_range.end as int,
            ));
            assert(r.after@ =~= block@.subrange(
                rng.block_match_range.end as int,
                block@.len() as int,
            ));
        }
        r
    }

    /// The three parts joined back together, the highlighted span wrapped
    /// in the color's escapes.
    pub fn with_diff_color(self, color: Color) -> (r: Vec<u8>)
        ensures
            is_utf8(self.diff@) ==> r@ == self.before@ + painted(self.diff@, color)
                + self.after@,
    {
        let mid = paint(color, self.diff);
        let mut out: Vec<u8> = Vec::new();
        append_all(&mut out, self.before);
        append_all(&mut out, mid.as_slice());
        append_all(&mut out, self.after);
        proof {
            if is_utf8(self.diff@) {
                assert(out@ =~= self.before@ + painted(self.diff@, color) + self.after@);
            }
        }
        out
    }
}

fn append_all(out: &mut Vec<u8>, src: &[u8])
    ensures
        final(out)@ == old(out)@ + src@,
{
    let mut i: usize = 0;
    while i < src.len()
        invariant
            i <= src@.len(),
            out@ == old(out)@ + src@.subrange(0, i as int),
        decreases src@.len() - i,
    {
        out.push(src[i]);
        proof {
            assert(out@ =~= old(out)@ + src@.subrange(0, i + 1));
        }
        i = i + 1;
    }
    proof {
        assert(out@ =~= old(out)@ + src@);
    }
}

/// What one printed result line holds: the path, a colon, the one-based
/// line number, optionally a colon and column, a colon, and the text;
/// path and line number colored when requested.
pub open spec fn match_line_spec(
    path: Seq<u8>,
    lnum: int,
    col: Option<int>,
    text: Seq<u8>,
    color: bool,
) -> Seq<u8> {
    let p = if color {
        painted(path, Color::Magenta)
    } else {
        path
    };
    let l = if color {
        painted(dec_digits(lnum), Color::Green)
    } else {
        dec_digits(lnum)
    };
    let c = match col {
        Some(c) => seq![58u8] + dec_digits(c),
        None => Seq::empty(),
    };
    p + seq![58u8] + l + c + seq![58u8] + text
}

/// Builds one result line, `path:line[:column]:text`, coloring the path
/// magenta and the line number green when `color` is set.
pub fn format_match_line(
    path: &[u8],
    lnum: usize,
    col: Option<usize>,
    text: &[u8],
    color: bool,
) -> (r: Vec<u8>)
    ensures
        is_utf8(path@) || !color ==> r@ == match_line_spec(
            path@,
            lnum as int,
            match col {
                Some(c) => Some(c as int),
                None => None,
            },
            text@,
            color,
        ),
{
    let mut out: Vec<u8> = Vec::new();
    if color {
        let p = paint(Color::Magenta, path);
        append_all(&mut out, p.as_slice());
    } else {
        append_all(&mut out, path);
    }
    out.push(58u8);
    let digits = format_decimal(lnum);
    if color {
        proof {
            lemma_dec_digits_ascii(lnum as int);
            lemma_ascii_is_utf8(dec_digits(lnum as int));
        }
        let l = paint(Color::Green, digits.as_slice());
        append_all(&mut out, l.as_slice());
    } else {
        append_all(&mut out, digits.as_slice());
    }
    match col {
        Some(c) => {
            out.push(58u8);
            let cd = format_decimal(c);
            append_all(&mut out, cd.as_slice());
        },
        None => {},
    }
    out.push(58u8);
    append_all(&mut out, text);
    proof {
        if is_utf8(path@) || !color {
            assert(out@ =~= match_line_spec(
                path@,
                lnum as int,
                match col {
                    Some(c) => Some(c as int),
                    None => None::<int>,
                },
                text@,
                color,
            ));
        }
    }
    out
}

} // verus!
