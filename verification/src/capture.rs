//! Recognized query-capture names, their validation, and the
//! custom-query extraction strategy that reads tagged captures directly
//! as block boundaries.

use vstd::prelude::*;

use crate::block::SqlBlock;
use crate::extract::Capture;

verus! {

/// The capture names a query can bind: `sql` (informational only), `ss`
/// for the start delimiter, `se` for the end delimiter; anything else is
/// `Other`.
#[derive(Clone, Copy, PartialEq, Eq, Structural, Debug)]
pub enum CaptureGroup {
    Sql,
    StringStart,
    StringEnd,
    Other,
}

/// A custom query fails construction when a mandatory capture is missing
/// or duplicated; a query that does not compile fails with
/// `BadQuerySyntax`.
#[derive(Clone, Copy, PartialEq, Eq, Structural, Debug)]
pub enum QueryError {
    BadQuerySyntax,
    MissingCaptureGroup(CaptureGroup),
    DuplicateCaptureGroup(CaptureGroup),
}

pub open spec fn capture_group_of_spec(name: Seq<u8>) -> CaptureGroup {
    if name == seq![115u8, 113u8, 108u8] {
        CaptureGroup::Sql
    } else if name == seq![115u8, 115u8] {
        CaptureGroup::StringStart
    } else if name == seq![115u8, 101u8] {
        CaptureGroup::StringEnd
    } else {
        CaptureGroup::Other
    }
}

/// The tags of a whole capture-name list.
pub open spec fn groups_of(names: Seq<Seq<u8>>) -> Seq<CaptureGroup> {
    names.map_values(|n: Seq<u8>| capture_group_of_spec(n))
}

/// Maps a capture name, as bytes, to its recognized tag: `sql`, `ss` or
/// `se`.
pub fn capture_group_of(name: &[u8]) -> (r: CaptureGroup)
    ensures
        r == capture_group_of_spec(name@),
{
    if name.len() == 3 && name[0] == 115 && name[1] == 113 && name[2] == 108 {
        proof {
            assert(name@ =~= seq![115u8, 113u8, 108u8]);
        }
        CaptureGroup::Sql
    } else if name.len() == 2 && name[0] == 115 && name[1] == 115 {
        proof {
            assert(name@ =~= seq![115u8, 115u8]);
            assert(name@.len() == 2);
            assert(seq![115u8, 113u8, 108u8].len() == 3);
        }
        CaptureGroup::StringStart
    } else if name.len() == 2 && name[0] == 115 && name[1] == 101 {
        proof {
            assert(name@ =~= seq![115u8, 101u8]);
            assert(seq![115u8, 113u8, 108u8].len() == 3);
            assert(seq![115u8, 115u8][1] == 115u8);
        }
        CaptureGroup::StringEnd
    } else {
        proof {
            assert(name@ != seq![115u8, 113u8, 108u8]) by {
                if name@ == seq![115u8, 113u8, 108u8] {
                    assert(name@.len() == 3);
                    assert(name@[0] == 115u8 && name@[1] == 113u8 && name@[2] == 108u8);
                }
            }
            assert(name@ != seq![115u8, 115u8]) by {
                if name@ == seq![115u8, 115u8] {
                    assert(name@.len() == 2);
                    assert(name@[0] == 115u8 && name@[1] == 115u8);
                }
            }
            assert(name@ != seq![115u8, 101u8]) by {
                if name@ == seq![115u8, 101u8] {
                    assert(name@.len() == 2);
                    assert(name@[0] == 115u8 && name@[1] == 101u8);
                }
            }
        }
        CaptureGroup::Other
    }
}

pub open spec fn contains_group(s: Seq<CaptureGroup>, g: CaptureGroup) -> bool {
    exists|i: int| 0 <= i < s.len() && s[i] == g
}

fn contains_group_exec(s: &[CaptureGroup], g: CaptureGroup) -> (r: bool)
    ensures
        r == contains_group(s@, g),
{
    let mut i: usize = 0;
    while i < s.len()
        invariant
            i <= s@.len(),
            forall|j: int| 0 <= j < i ==> s@[j] != g,
        decreases s@.len() - i,
    {
        if s[i] == g {
            return true;
        }
        i = i + 1;
    }
    false
}

/// The first mandatory capture tag (`ss`, then `se`) that the list does
/// not contain, or nothing when both are present.
pub fn check_capture_groups(capture_names: &[CaptureGroup]) -> (r: Option<CaptureGroup>)
    ensures
        r == (if !contains_group(capture_names@, CaptureGroup::StringStart) {
            Some(CaptureGroup::StringStart)
        } else if !contains_group(capture_names@, CaptureGroup::StringEnd) {
            Some(CaptureGroup::StringEnd)
        } else {
            None::<CaptureGroup>
        }),
{
    if !contains_group_exec(capture_names, CaptureGroup::StringStart) {
        Some(CaptureGroup::StringStart)
    } else if !contains_group_exec(capture_names, CaptureGroup::StringEnd) {
        Some(CaptureGroup::StringEnd)
    } else {
        None
    }
}

pub open spec fn group_count(s: Seq<CaptureGroup>, g: CaptureGroup) -> int
    decreases s.len(),
{
    if s.len() == 0 {
        0
    } else {
        group_count(s.drop_last(), g) + if s.last() == g {
            1int
        } else {
            0int
        }
    }
}

fn group_count_exec(s: &Vec<CaptureGroup>, g: CaptureGroup) -> (r: usize)
    ensures
        r == group_count(s@, g),
{
    let mut count: usize = 0;
    let mut i: usize = 0;
    while i < s.len()
        invariant
            i <= s@.len(),
            count <= i,
            count == group_count(s@.subrange(0, i as int), g),
        decreases s@.len() - i,
    {
        proof {
            assert(s@.subrange(0, i + 1).drop_last() =~= s@.subrange(0, i as int));
            assert(s@.subrange(0, i + 1).last() == s@[i as int]);
        }
        if s[i] == g {
            count = count + 1;
        }
        i = i + 1;
    }
    proof {
        assert(s@.subrange(0, s@.len() as int) =~= s@);
    }
    count
}

pub open spec fn validate_spec(s: Seq<CaptureGroup>) -> Result<(), QueryError> {
    if group_count(s, CaptureGroup::StringStart) == 0 {
        Err(QueryError::MissingCaptureGroup(CaptureGroup::StringStart))
    } else if group_count(s, CaptureGroup::StringStart) > 1 {
        Err(QueryError::DuplicateCaptureGroup(CaptureGroup::StringStart))
    } else if group_count(s, CaptureGroup::StringEnd) == 0 {
        Err(QueryError::MissingCaptureGroup(CaptureGroup::StringEnd))
    } else if group_count(s, CaptureGroup::StringEnd) > 1 {
        Err(QueryError::DuplicateCaptureGroup(CaptureGroup::StringEnd))
    } else {
        Ok(())
    }
}

/// A custom query is valid exactly when it has one `ss` capture and one
/// `se` capture; the error names the first tag that is missing or
/// duplicated.
pub fn validate_capture_groups(groups: &Vec<CaptureGroup>) -> (r: Result<(), QueryError>)
    ensures
        r == validate_spec(groups@),
{
    let ss = group_count_exec(groups, CaptureGroup::StringStart);
    let se = group_count_exec(groups, CaptureGroup::StringEnd);
    if ss == 0 {
        Err(QueryError::MissingCaptureGroup(CaptureGroup::StringStart))
    } else if ss > 1 {
        Err(QueryError::DuplicateCaptureGroup(CaptureGroup::StringStart))
    } else if se == 0 {
        Err(QueryError::MissingCaptureGroup(CaptureGroup::StringEnd))
    } else if se > 1 {
        Err(QueryError::DuplicateCaptureGroup(CaptureGroup::StringEnd))
    } else {
        Ok(())
    }
}

// ---------------------------------------------------------------------
// Custom-query extraction: tagged captures are the block boundaries.
// ---------------------------------------------------------------------

pub open spec fn first_with_group(caps: Seq<Capture>, g: CaptureGroup) -> Option<Capture>
    decreases caps.len(),
{
    if caps.len() == 0 {
        None
    } else if capture_group_of_spec(caps[0].name@) == g {
        Some(caps[0])
    } else {
        first_with_group(caps.drop_first(), g)
    }
}

proof fn lemma_first_with_group_at(caps: Seq<Capture>, g: CaptureGroup, i: int)
    requires
        0 <= i < caps.len(),
        capture_group_of_spec(caps[i].name@) == g,
        forall|j: int| 0 <= j < i ==> capture_group_of_spec(caps[j].name@) != g,
    ensures
        first_with_group(caps, g) == Some(caps[i]),
    decreases i,
{
    if i > 0 {
        lemma_first_with_group_at(caps.drop_first(), g, i - 1);
    }
}

proof fn lemma_first_with_group_none(caps: Seq<Capture>, g: CaptureGroup)
    requires
        forall|j: int| 0 <= j < caps.len() ==> capture_group_of_spec(caps[j].name@) != g,
    ensures
        first_with_group(caps, g) is None,
    decreases caps.len(),
{
    if caps.len() > 0 {
        lemma_first_with_group_none(caps.drop_first(), g);
    }
}

fn find_group<'a>(caps: &'a Vec<Capture>, g: CaptureGroup) -> (r: Option<&'a Capture>)
    ensures
        match r {
            Some(c) => first_with_group(caps@, g) == Some(*c),
            None => first_with_group(caps@, g) is None,
        },
{
    let mut i: usize = 0;
    while i < caps.len()
        invariant
            i <= caps@.len(),
            forall|j: int| 0 <= j < i ==> capture_group_of_spec(caps@[j].name@) != g,
        decreases caps@.len() - i,
    {
        let grp = capture_group_of(caps[i].name.as_slice());
        if grp == g {
            proof {
                lemma_first_with_group_at(caps@, g, i as int);
            }
            return Some(&caps[i]);
        }
        i = i + 1;
    }
    proof {
        lemma_first_with_group_none(caps@, g);
    }
    None
}

/// The block of one custom-query match: the `ss`-tagged node's position
/// paired with the `se`-tagged node's position, provided both captures
/// are present and ordered.
pub open spec fn custom_match_block(caps: Seq<Capture>) -> Seq<SqlBlock> {
    match (
        first_with_group(caps, CaptureGroup::StringStart),
        first_with_group(caps, CaptureGroup::StringEnd),
    ) {
        (Some(a), Some(b)) => if a.node.end_byte <= b.node.start_byte {
            seq![SqlBlock { string_start: a.node.pos(), string_end: b.node.pos() }]
        } else {
            Seq::empty()
        },
        _ => Seq::empty(),
    }
}

pub open spec fn custom_blocks(ms: Seq<Seq<Capture>>, i: int) -> Seq<SqlBlock>
    decreases ms.len() - i,
{
    if i < 0 || i >= ms.len() {
        Seq::empty()
    } else {
        custom_match_block(ms[i]) + custom_blocks(ms, i + 1)
    }
}

/// Assembles the blocks of a whole file's custom-query matches, in match
/// order.
pub fn custom_sql_blocks(matches: &Vec<Vec<Capture>>) -> (r: Vec<SqlBlock>)
    ensures
        r@ == custom_blocks(crate::extract::caps_view(matches@), 0),
{
    let mut blocks: Vec<SqlBlock> = Vec::new();
    custom_from(matches, 0, &mut blocks);
    blocks
}

/// Every block of a custom-query run lies within the file, provided the
/// captured nodes do.
pub proof fn lemma_custom_blocks_ok(ms: Seq<Seq<Capture>>, i: int, n: int)
    requires
        0 <= i,
        forall|a: int, j: int|
            0 <= a < ms.len() && 0 <= j < ms[a].len() ==> (#[trigger] ms[a][j]).node.wf()
                && ms[a][j].node.end_byte <= n,
    ensures
        crate::block::blocks_in_code(custom_blocks(ms, i), n),
    decreases ms.len() - i,
{
    if 0 <= i < ms.len() {
        lemma_custom_blocks_ok(ms, i + 1, n);
        let h = custom_match_block(ms[i]);
        let t = custom_blocks(ms, i + 1);
        assert forall|x: int| 0 <= x < h.len() implies (#[trigger] h[x]).in_code(n) by {
            match (
                first_with_group(ms[i], CaptureGroup::StringStart),
                first_with_group(ms[i], CaptureGroup::StringEnd),
            ) {
                (Some(a), Some(b)) => {
                    let ia = lemma_first_with_group_mem(ms[i], CaptureGroup::StringStart, a);
                    let ib = lemma_first_with_group_mem(ms[i], CaptureGroup::StringEnd, b);
                    assert(ms[i][ia].node.wf() && ms[i][ia].node.end_byte <= n);
                    assert(ms[i][ib].node.wf() && ms[i][ib].node.end_byte <= n);
                },
                _ => {},
            }
        }
        assert forall|x: int|
            0 <= x < custom_blocks(ms, i).len() implies (#[trigger] custom_blocks(ms, i)[x])
            .in_code(n) by {
            if x < h.len() {
                assert(custom_blocks(ms, i)[x] == h[x]);
                assert(h[x].in_code(n));
            } else {
                assert(custom_blocks(ms, i)[x] == t[x - h.len()]);
                assert(t[x - h.len()].in_code(n));
            }
        }
    }
}

/// Every custom block's boundaries are capture nodes of its own match.
proof fn lemma_custom_blocks_witness(ms: Seq<Seq<Capture>>, i: int)
    requires
        0 <= i,
    ensures
        forall|x: int|
            0 <= x < custom_blocks(ms, i).len() ==> exists|a: int, ja: int, jb: int|
                i <= a < ms.len() && 0 <= ja < ms[a].len() && 0 <= jb < ms[a].len() && (
                #[trigger] custom_blocks(ms, i)[x]).string_start.byte_range.start
                    == ms[a][ja].node.start_byte && custom_blocks(ms, i)[x]
                    .string_end.byte_range.end == ms[a][jb].node.end_byte,
    decreases ms.len() - i,
{
    if 0 <= i < ms.len() {
        lemma_custom_blocks_witness(ms, i + 1);
        let h = custom_match_block(ms[i]);
        let t = custom_blocks(ms, i + 1);
        assert forall|x: int|
            0 <= x < custom_blocks(ms, i).len() implies exists|a: int, ja: int, jb: int|
            i <= a < ms.len() && 0 <= ja < ms[a].len() && 0 <= jb < ms[a].len() && (
        #[trigger] custom_blocks(ms, i)[x]).string_start.byte_range.start
            == ms[a][ja].node.start_byte && custom_blocks(ms, i)[x].string_end.byte_range.end
            == ms[a][jb].node.end_byte by {
            if x < h.len() {
                assert(custom_blocks(ms, i)[x] == h[x]);
                match (
                    first_with_group(ms[i], CaptureGroup::StringStart),
                    first_with_group(ms[i], CaptureGroup::StringEnd),
                ) {
                    (Some(a), Some(b)) => {
                        let ja = lemma_first_with_group_mem(ms[i], CaptureGroup::StringStart, a);
                        let jb = lemma_first_with_group_mem(ms[i], CaptureGroup::StringEnd, b);
                        assert(i <= i < ms.len() && 0 <= ja < ms[i].len() && 0 <= jb
                            < ms[i].len() && custom_blocks(ms, i)[x].string_start.byte_range.start
                            == ms[i][ja].node.start_byte && custom_blocks(ms, i)[x]
                            .string_end.byte_range.end == ms[i][jb].node.end_byte);
                    },
                    _ => {
                        assert(false);
                    },
                }
            } else {
                assert(custom_blocks(ms, i)[x] == t[x - h.len()]);
                let (a, ja, jb) = choose|a: int, ja: int, jb: int|
                    i + 1 <= a < ms.len() && 0 <= ja < ms[a].len() && 0 <= jb < ms[a].len() && t[x
                        - h.len()].string_start.byte_range.start == ms[a][ja].node.start_byte
                        && t[x - h.len()].string_end.byte_range.end == ms[a][jb].node.end_byte;
                assert(i <= a < ms.len() && 0 <= ja < ms[a].len() && 0 <= jb < ms[a].len()
                    && custom_blocks(ms, i)[x].string_start.byte_range.start
                    == ms[a][ja].node.start_byte && custom_blocks(ms, i)[x]
                    .string_end.byte_range.end == ms[a][jb].node.end_byte);
            }
        }
    }
}

/// Block-ordering invariant for the custom-query strategy: when the
/// matches' captured nodes appear in ascending source order across
/// matches, the emitted blocks are well formed, non-overlapping and
/// strictly increasing in start offset.
pub proof fn lemma_custom_blocks_sorted(ms: Seq<Seq<Capture>>, i: int)
    requires
        0 <= i,
        forall|a: int, j: int|
            0 <= a < ms.len() && 0 <= j < ms[a].len() ==> (#[trigger] ms[a][j]).node.wf(),
        forall|a: int, b: int, x: int, y: int|
            0 <= a < b < ms.len() && 0 <= x < ms[a].len() && 0 <= y < ms[b].len() ==> (
            #[trigger] ms[a][x]).node.end_byte <= (#[trigger] ms[b][y]).node.start_byte,
    ensures
        crate::extract::blocks_wf(custom_blocks(ms, i)),
        crate::extract::blocks_sorted(custom_blocks(ms, i)),
    decreases ms.len() - i,
{
    if 0 <= i < ms.len() {
        lemma_custom_blocks_sorted(ms, i + 1);
        lemma_custom_blocks_witness(ms, i + 1);
        let h = custom_match_block(ms[i]);
        let t = custom_blocks(ms, i + 1);
        let all = custom_blocks(ms, i);
        assert forall|x: int| 0 <= x < h.len() implies (#[trigger] h[x]).wf() by {
            match (
                first_with_group(ms[i], CaptureGroup::StringStart),
                first_with_group(ms[i], CaptureGroup::StringEnd),
            ) {
                (Some(a), Some(b)) => {
                    let ja = lemma_first_with_group_mem(ms[i], CaptureGroup::StringStart, a);
                    let jb = lemma_first_with_group_mem(ms[i], CaptureGroup::StringEnd, b);
                    assert(ms[i][ja].node.wf() && ms[i][jb].node.wf());
                },
                _ => {
                    assert(false);
                },
            }
        }
        assert forall|x: int| 0 <= x < all.len() implies (#[trigger] all[x]).wf() by {
            if x < h.len() {
                assert(all[x] == h[x]);
            } else {
                assert(all[x] == t[x - h.len()]);
            }
        }
        assert forall|x: int, y: int|
            0 <= x < y < all.len() implies (#[trigger] all[x]).string_end.byte_range.end <= (
        #[trigger] all[y]).string_start.byte_range.start by {
            if y < h.len() {
                assert(all[x] == h[x] && all[y] == h[y]);
            } else if x >= h.len() {
                assert(all[x] == t[x - h.len()] && all[y] == t[y - h.len()]);
            } else {
                assert(all[x] == h[x] && all[y] == t[y - h.len()]);
                match (
                    first_with_group(ms[i], CaptureGroup::StringStart),
                    first_with_group(ms[i], CaptureGroup::StringEnd),
                ) {
                    (Some(a), Some(b)) => {
                        let jb = lemma_first_with_group_mem(ms[i], CaptureGroup::StringEnd, b);
                        let (a2, ja2, jb2) = choose|a2: int, ja2: int, jb2: int|
                            i + 1 <= a2 < ms.len() && 0 <= ja2 < ms[a2].len() && 0 <= jb2
                                < ms[a2].len() && t[y - h.len()].string_start.byte_range.start
                                == ms[a2][ja2].node.start_byte && t[y
                                - h.len()].string_end.byte_range.end == ms[a2][jb2].node.end_byte;
                        assert(ms[i][jb].node.end_byte <= ms[a2][ja2].node.start_byte);
                    },
                    _ => {
                        assert(false);
                    },
                }
            }
        }
    }
}

proof fn lemma_first_with_group_mem(caps: Seq<Capture>, g: CaptureGroup, x: Capture) -> (i: int)
    requires
        first_with_group(caps, g) == Some(x),
    ensures
        0 <= i < caps.len(),
        caps[i] == x,
    decreases caps.len(),
{
    if capture_group_of_spec(caps[0].name@) == g {
        0
    } else {
        let j = lemma_first_with_group_mem(caps.drop_first(), g, x);
        assert(caps[j + 1] == caps.drop_first()[j]);
        j + 1
    }
}

fn custom_from(ms: &Vec<Vec<Capture>>, i: usize, blocks: &mut Vec<SqlBlock>)
    requires
        i <= ms@.len(),
    ensures
        final(blocks)@ == old(blocks)@ + custom_blocks(crate::extract::caps_view(ms@), i as int),
    decreases ms@.len() - i,
{
    if i < ms.len() {
        let caps = &ms[i];
        proof {
            assert(crate::extract::caps_view(ms@)[i as int] == ms@[i as int]@);
        }
        let ss = find_group(caps, CaptureGroup::StringStart);
        let se = find_group(caps, CaptureGroup::StringEnd);
        match (ss, se) {
            (Some(a), Some(b)) => {
                if a.node.end_byte <= b.node.start_byte {
                    blocks.push(
                        SqlBlock { string_start: a.node.position(), string_end: b.node.position() },
                    );
                }
            },
            _ => {},
        }
        custom_from(ms, i + 1, blocks);
        assert(blocks@ =~= old(blocks)@ + custom_blocks(
            crate::extract::caps_view(ms@),
            i as int,
        ));
    } else {
        assert(blocks@ =~= old(blocks)@ + custom_blocks(
            crate::extract::caps_view(ms@),
            i as int,
        ));
    }
}

} // verus!
