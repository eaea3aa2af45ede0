//! In-place byte-range editing with explicit offsets, and the invariant
//! that makes reverse-order bulk edits safe: an edit never moves a byte
//! that sits before its range.

use vstd::prelude::*;

use crate::block::ByteRange;

verus! {

/// The result of replacing the bytes in `[start, end)` of `v` with `rep`.
pub open spec fn spliced(v: Seq<u8>, start: int, end: int, rep: Seq<u8>) -> Seq<u8> {
    v.subrange(0, start) + rep + v.subrange(end, v.len() as int)
}

/// A reverse-order bulk edit never invalidates a not-yet-processed
/// block's offsets: splicing at `[start, end)` leaves every byte before
/// `start` exactly where it was, so earlier ranges stay valid.
pub proof fn lemma_edit_keeps_prefix(v: Seq<u8>, start: int, end: int, rep: Seq<u8>)
    requires
        0 <= start <= end <= v.len(),
    ensures
        spliced(v, start, end, rep).len() == v.len() - (end - start) + rep.len(),
        spliced(v, start, end, rep).subrange(0, start) == v.subrange(0, start),
{
    assert(spliced(v, start, end, rep).subrange(0, start) =~= v.subrange(0, start));
}

fn append_range(out: &mut Vec<u8>, src: &[u8], from: usize, to: usize)
    requires
        from <= to <= src@.len(),
    ensures
        final(out)@ == old(out)@ + src@.subrange(from as int, to as int),
{
    let mut i: usize = from;
    while i < to
        invariant
            from <= i <= to <= src@.len(),
            out@ == old(out)@ + src@.subrange(from as int, i as int),
        decreases to - i,
    {
        out.push(src[i]);
        proof {
            assert(out@ =~= old(out)@ + src@.subrange(from as int, i + 1));
        }
        i = i + 1;
    }
    proof {
        assert(out@ =~= old(out)@ + src@.subrange(from as int, to as int));
    }
}

/// Builds a copy of `code` with the bytes in `[start, end)` replaced by
/// `rep`.
pub fn splice_bytes(code: &[u8], start: usize, end: usize, rep: &[u8]) -> (r: Vec<u8>)
    requires
        start <= end <= code@.len(),
    ensures
        r@ == spliced(code@, start as int, end as int, rep@),
{
    let mut out: Vec<u8> = Vec::new();
    append_range(&mut out, code, 0, start);
    append_range(&mut out, rep, 0, rep.len());
    append_range(&mut out, code, end, code.len());
    proof {
        assert(rep@.subrange(0, rep@.len() as int) =~= rep@);
        assert(out@ =~= spliced(code@, start as int, end as int, rep@));
    }
    out
}

// ---------------------------------------------------------------------
// Applying many edits at once, later ranges first.
// ---------------------------------------------------------------------

/// The ranges are each well formed, lie within a text of `n` bytes, and
/// are non-overlapping in ascending order — the shape under which a
/// reverse-order bulk edit is safe.
pub open spec fn ranges_sorted_in(ranges: Seq<ByteRange>, n: int) -> bool {
    &&& forall|i: int| 0 <= i < ranges.len() ==> (#[trigger] ranges[i]).wf() && ranges[i].end <= n
    &&& forall|i: int, j: int|
        0 <= i < j < ranges.len() ==> (#[trigger] ranges[i]).end <= (#[trigger] ranges[j]).start
}

/// Checks `ranges_sorted_in` at run time, so callers outside the proofs
/// can establish it before editing.
pub fn check_ranges_sorted(ranges: &Vec<ByteRange>, n: usize) -> (r: bool)
    ensures
        r == ranges_sorted_in(ranges@, n as int),
{
    let mut i: usize = 0;
    while i < ranges.len()
        invariant
            i <= ranges@.len(),
            forall|k: int| 0 <= k < i ==> (#[trigger] ranges@[k]).wf() && ranges@[k].end <= n,
            forall|k: int| 0 <= k < i && k + 1 < ranges@.len() ==> (#[trigger] ranges@[k]).end
                <= ranges@[k + 1].start,
        decreases ranges@.len() - i,
    {
        let rg = ranges[i];
        if rg.start > rg.end || rg.end > n {
            return false;
        }
        if i + 1 < ranges.len() {
            if rg.end > ranges[i + 1].start {
                return false;
            }
        }
        i = i + 1;
    }
    proof {
        assert forall|a: int, b: int|
            0 <= a < b < ranges@.len() implies (#[trigger] ranges@[a]).end <= (
        #[trigger] ranges@[b]).start by {
            lemma_adjacent_sorted(ranges@, a, b);
        }
    }
    true
}

/// Pairwise ordering follows from adjacent ordering, by induction.
proof fn lemma_adjacent_sorted(ranges: Seq<ByteRange>, a: int, b: int)
    requires
        0 <= a < b < ranges.len(),
        forall|x: int| 0 <= x < ranges.len() ==> (#[trigger] ranges[x]).wf(),
        forall|x: int|
            0 <= x && x + 1 < ranges.len() ==> (#[trigger] ranges[x]).end <= ranges[x + 1].start,
    ensures
        ranges[a].end <= ranges[b].start,
    decreases b - a,
{
    if a + 1 < b {
        lemma_adjacent_sorted(ranges, a, b - 1);
        assert(ranges[b - 1].end <= ranges[b].start);
    } else {
        assert(ranges[a].end <= ranges[a + 1].start);
    }
}

pub open spec fn deep(reps: Seq<Vec<u8>>) -> Seq<Seq<u8>> {
    reps.map_values(|v: Vec<u8>| v@)
}

/// The text after replacing ranges `j`, `j + 1`, ... with the
/// corresponding replacement texts, later ranges first.
pub open spec fn edited_suffix(
    code: Seq<u8>,
    ranges: Seq<ByteRange>,
    reps: Seq<Seq<u8>>,
    j: int,
) -> Seq<u8>
    decreases ranges.len() - j,
{
    if j < 0 || j >= ranges.len() {
        code
    } else {
        spliced(
            edited_suffix(code, ranges, reps, j + 1),
            ranges[j].start as int,
            ranges[j].end as int,
            reps[j],
        )
    }
}

pub open spec fn edit_lo(ranges: Seq<ByteRange>, j: int, n: int) -> int {
    if j < ranges.len() {
        ranges[j].start as int
    } else {
        n
    }
}

/// Editing the ranges after `j` never moves a byte before range `j`: a
/// reverse-order bulk edit keeps every not-yet-processed range's offsets
/// valid.
pub proof fn lemma_edited_suffix_prefix(
    code: Seq<u8>,
    ranges: Seq<ByteRange>,
    reps: Seq<Seq<u8>>,
    j: int,
)
    requires
        0 <= j <= ranges.len(),
        ranges_sorted_in(ranges, code.len() as int),
    ensures
        edited_suffix(code, ranges, reps, j).len() >= edit_lo(ranges, j, code.len() as int),
        edited_suffix(code, ranges, reps, j).subrange(0, edit_lo(ranges, j, code.len() as int))
            == code.subrange(0, edit_lo(ranges, j, code.len() as int)),
        j < ranges.len() ==> ranges[j].end <= edited_suffix(code, ranges, reps, j + 1).len(),
    decreases ranges.len() - j,
{
    if j < ranges.len() {
        lemma_edited_suffix_prefix(code, ranges, reps, j + 1);
        let rest = edited_suffix(code, ranges, reps, j + 1);
        let rg = ranges[j];
        let lo1 = edit_lo(ranges, j + 1, code.len() as int);
        assert(rg.end <= lo1);
        lemma_edit_keeps_prefix(rest, rg.start as int, rg.end as int, reps[j]);
        let cur = edited_suffix(code, ranges, reps, j);
        assert(cur.subrange(0, rg.start as int) == rest.subrange(0, rg.start as int));
        assert(rest.subrange(0, rg.start as int) =~= code.subrange(0, rg.start as int)) by {
            assert forall|x: int| 0 <= x < rg.start implies rest.subrange(0, rg.start as int)[x]
                == code.subrange(0, rg.start as int)[x] by {
                assert(rest.subrange(0, lo1)[x] == code.subrange(0, lo1)[x]);
            }
        }
    }
}

/// Applies one replacement text per range, later ranges first, so that
/// every pending range's offsets stay valid until it is reached.
pub fn apply_edits(code: &[u8], ranges: &Vec<ByteRange>, reps: &Vec<Vec<u8>>) -> (r: Vec<u8>)
    requires
        ranges_sorted_in(ranges@, code@.len() as int),
        reps@.len() == ranges@.len(),
    ensures
        r@ == edited_suffix(code@, ranges@, deep(reps@), 0),
{
    let mut cur = copy_bytes(code);
    let mut j: usize = ranges.len();
    while j > 0
        invariant
            j <= ranges@.len(),
            ranges@.len() <= usize::MAX,
            reps@.len() == ranges@.len(),
            ranges_sorted_in(ranges@, code@.len() as int),
            cur@ == edited_suffix(code@, ranges@, deep(reps@), j as int),
        decreases j,
    {
        j = j - 1;
        proof {
            lemma_edited_suffix_prefix(code@, ranges@, deep(reps@), j as int);
            assert(deep(reps@)[j as int] == reps@[j as int]@);
        }
        let rg = ranges[j];
        cur = splice_bytes(cur.as_slice(), rg.start, rg.end, reps[j].as_slice());
    }
    cur
}

fn copy_bytes(src: &[u8]) -> (r: Vec<u8>)
    ensures
        r@ == src@,
{
    let mut out: Vec<u8> = Vec::new();
    let mut i: usize = 0;
    while i < src.len()
        invariant
            i <= src@.len(),
            out@ == src@.subrange(0, i as int),
        decreases src@.len() - i,
    {
        out.push(src[i]);
        proof {
            assert(out@ =~= src@.subrange(0, i + 1));
        }
        i = i + 1;
    }
    proof {
        assert(out@ =~= src@);
    }
    out
}

} // verus!
