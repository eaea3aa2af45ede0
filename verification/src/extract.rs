//! Block extraction: resolving syntax-tree shapes into `SqlBlock`
//! boundary pairs.
//!
//! The resolution rules for the built-in call strategy, applied to the
//! first resolvable argument of a call's argument list:
//! a plain string literal yields its own delimiter pair; a call whose
//! receiver is a string literal yields the receiver's pair; adjacent
//! string-literal concatenation yields one pair per literal; binary `+`
//! concatenation recurses into its operands, one pair per literal leaf,
//! left to right.  Any other shape yields nothing.

use vstd::prelude::*;

use crate::block::SqlBlock;
use crate::node::{FieldKind, NodeKind, SyntaxNode};

verus! {

/// One capture binding of a query match: the capture's name and the
/// captured node.
pub struct Capture {
    pub name: Vec<u8>,
    pub node: SyntaxNode,
}

pub open spec fn cap_nodes(caps: Seq<Capture>) -> Seq<SyntaxNode> {
    caps.map_values(|c: Capture| c.node)
}

pub open spec fn matches_nodes(ms: Seq<Vec<Capture>>) -> Seq<Seq<SyntaxNode>> {
    ms.map_values(|m: Vec<Capture>| cap_nodes(m@))
}

/// The plain view of a match list: each match's captures as a sequence.
pub open spec fn caps_view(ms: Seq<Vec<Capture>>) -> Seq<Seq<Capture>> {
    ms.map_values(|m: Vec<Capture>| m@)
}

/// The captured nodes of every match, out of the plain view.
pub open spec fn nodes_of(ms: Seq<Seq<Capture>>) -> Seq<Seq<SyntaxNode>> {
    ms.map_values(|m: Seq<Capture>| cap_nodes(m))
}

broadcast use vstd::seq::axiom_seq_index_decreases;

// ---------------------------------------------------------------------
// Finding children by kind, field, or resolvability.
// ---------------------------------------------------------------------

pub open spec fn first_with_kind(c: Seq<SyntaxNode>, k: NodeKind) -> Option<SyntaxNode>
    decreases c.len(),
{
    if c.len() == 0 {
        None
    } else if c[0].kind == k {
        Some(c[0])
    } else {
        first_with_kind(c.drop_first(), k)
    }
}

pub open spec fn first_with_field(c: Seq<SyntaxNode>, f: FieldKind) -> Option<SyntaxNode>
    decreases c.len(),
{
    if c.len() == 0 {
        None
    } else if c[0].field == f {
        Some(c[0])
    } else {
        first_with_field(c.drop_first(), f)
    }
}

/// The argument shapes that the built-in call strategy can resolve.
pub open spec fn resolvable(k: NodeKind) -> bool {
    ||| k == NodeKind::Str
    ||| k == NodeKind::Call
    ||| k == NodeKind::ConcatenatedString
    ||| k == NodeKind::BinaryOperator
}

pub open spec fn first_resolvable(c: Seq<SyntaxNode>) -> Option<SyntaxNode>
    decreases c.len(),
{
    if c.len() == 0 {
        None
    } else if resolvable(c[0].kind) {
        Some(c[0])
    } else {
        first_resolvable(c.drop_first())
    }
}

proof fn lemma_first_with_kind_at(c: Seq<SyntaxNode>, k: NodeKind, i: int)
    requires
        0 <= i < c.len(),
        c[i].kind == k,
        forall|j: int| 0 <= j < i ==> c[j].kind != k,
    ensures
        first_with_kind(c, k) == Some(c[i]),
    decreases i,
{
    if i > 0 {
        lemma_first_with_kind_at(c.drop_first(), k, i - 1);
    }
}

proof fn lemma_first_with_kind_none(c: Seq<SyntaxNode>, k: NodeKind)
    requires
        forall|j: int| 0 <= j < c.len() ==> c[j].kind != k,
    ensures
        first_with_kind(c, k) is None,
    decreases c.len(),
{
    if c.len() > 0 {
        lemma_first_with_kind_none(c.drop_first(), k);
    }
}

proof fn lemma_first_with_field_at(c: Seq<SyntaxNode>, f: FieldKind, i: int)
    requires
        0 <= i < c.len(),
        c[i].field == f,
        forall|j: int| 0 <= j < i ==> c[j].field != f,
    ensures
        first_with_field(c, f) == Some(c[i]),
    decreases i,
{
    if i > 0 {
        lemma_first_with_field_at(c.drop_first(), f, i - 1);
    }
}

proof fn lemma_first_with_field_none(c: Seq<SyntaxNode>, f: FieldKind)
    requires
        forall|j: int| 0 <= j < c.len() ==> c[j].field != f,
    ensures
        first_with_field(c, f) is None,
    decreases c.len(),
{
    if c.len() > 0 {
        lemma_first_with_field_none(c.drop_first(), f);
    }
}

proof fn lemma_first_resolvable_at(c: Seq<SyntaxNode>, i: int)
    requires
        0 <= i < c.len(),
        resolvable(c[i].kind),
        forall|j: int| 0 <= j < i ==> !resolvable(c[j].kind),
    ensures
        first_resolvable(c) == Some(c[i]),
    decreases i,
{
    if i > 0 {
        lemma_first_resolvable_at(c.drop_first(), i - 1);
    }
}

proof fn lemma_first_resolvable_none(c: Seq<SyntaxNode>)
    requires
        forall|j: int| 0 <= j < c.len() ==> !resolvable(c[j].kind),
    ensures
        first_resolvable(c) is None,
    decreases c.len(),
{
    if c.len() > 0 {
        lemma_first_resolvable_none(c.drop_first());
    }
}

fn find_kind<'a>(children: &'a Vec<SyntaxNode>, k: NodeKind) -> (r: Option<&'a SyntaxNode>)
    ensures
        match r {
            Some(n) => first_with_kind(children@, k) == Some(*n),
            None => first_with_kind(children@, k) is None,
        },
{
    let mut i: usize = 0;
    while i < children.len()
        invariant
            i <= children@.len(),
            forall|j: int| 0 <= j < i ==> children@[j].kind != k,
        decreases children@.len() - i,
    {
        if children[i].kind == k {
            proof {
                lemma_first_with_kind_at(children@, k, i as int);
            }
            return Some(&children[i]);
        }
        i = i + 1;
    }
    proof {
        lemma_first_with_kind_none(children@, k);
    }
    None
}

fn find_field<'a>(children: &'a Vec<SyntaxNode>, f: FieldKind) -> (r: Option<&'a SyntaxNode>)
    ensures
        match r {
            Some(n) => first_with_field(children@, f) == Some(*n),
            None => first_with_field(children@, f) is None,
        },
{
    let mut i: usize = 0;
    while i < children.len()
        invariant
            i <= children@.len(),
            forall|j: int| 0 <= j < i ==> children@[j].field != f,
        decreases children@.len() - i,
    {
        if children[i].field == f {
            proof {
                lemma_first_with_field_at(children@, f, i as int);
            }
            return Some(&children[i]);
        }
        i = i + 1;
    }
    proof {
        lemma_first_with_field_none(children@, f);
    }
    None
}

fn is_resolvable(k: NodeKind) -> (r: bool)
    ensures
        r == resolvable(k),
{
    match k {
        NodeKind::Str => true,
        NodeKind::Call => true,
        NodeKind::ConcatenatedString => true,
        NodeKind::BinaryOperator => true,
        _ => false,
    }
}

fn find_resolvable<'a>(children: &'a Vec<SyntaxNode>) -> (r: Option<&'a SyntaxNode>)
    ensures
        match r {
            Some(n) => first_resolvable(children@) == Some(*n) && resolvable(n.kind),
            None => first_resolvable(children@) is None,
        },
{
    let mut i: usize = 0;
    while i < children.len()
        invariant
            i <= children@.len(),
            forall|j: int| 0 <= j < i ==> !resolvable(children@[j].kind),
        decreases children@.len() - i,
    {
        if is_resolvable(children[i].kind) {
            proof {
                lemma_first_resolvable_at(children@, i as int);
            }
            return Some(&children[i]);
        }
        i = i + 1;
    }
    proof {
        lemma_first_resolvable_none(children@);
    }
    None
}

// ---------------------------------------------------------------------
// The resolution rules, as spec functions.
// ---------------------------------------------------------------------

/// A plain string literal: one block from its first start-delimiter child
/// and its first end-delimiter child, provided they are ordered.
pub open spec fn str_block(n: SyntaxNode) -> Seq<SqlBlock> {
    match (
        first_with_kind(n.children@, NodeKind::StringStart),
        first_with_kind(n.children@, NodeKind::StringEnd),
    ) {
        (Some(ss), Some(se)) => if ss.end_byte <= se.start_byte {
            seq![SqlBlock { string_start: ss.pos(), string_end: se.pos() }]
        } else {
            Seq::empty()
        },
        _ => Seq::empty(),
    }
}

/// A call whose receiver is itself a string literal (the "call a method on
/// a literal" idiom): the receiver literal's block.
pub open spec fn call_blocks(n: SyntaxNode) -> Seq<SqlBlock> {
    match first_with_field(n.children@, FieldKind::Function) {
        Some(f) => match first_with_field(f.children@, FieldKind::Object) {
            Some(obj) => if obj.kind == NodeKind::Str {
                str_block(obj)
            } else {
                Seq::empty()
            },
            None => Seq::empty(),
        },
        None => Seq::empty(),
    }
}

/// Adjacent string-literal concatenation: one block per literal child.
pub open spec fn concat_children(c: Seq<SyntaxNode>, i: int) -> Seq<SqlBlock>
    decreases c.len() - i,
{
    if i < 0 || i >= c.len() {
        Seq::empty()
    } else {
        (if c[i].kind == NodeKind::Str {
            str_block(c[i])
        } else {
            Seq::empty()
        }) + concat_children(c, i + 1)
    }
}

pub open spec fn concat_blocks(n: SyntaxNode) -> Seq<SqlBlock> {
    concat_children(n.children@, 0)
}

/// Binary `+` concatenation: literal leaves in left-to-right order,
/// recursing through nested operators.
pub open spec fn binop_children(c: Seq<SyntaxNode>, i: int) -> Seq<SqlBlock>
    decreases c, c.len() - i,
{
    if i < 0 || i >= c.len() {
        Seq::empty()
    } else {
        (if c[i].kind == NodeKind::Str {
            str_block(c[i])
        } else if c[i].kind == NodeKind::BinaryOperator {
            binop_blocks(c[i])
        } else {
            Seq::empty()
        }) + binop_children(c, i + 1)
    }
}

pub open spec fn binop_blocks(n: SyntaxNode) -> Seq<SqlBlock>
    decreases n, 0int,
{
    binop_children(n.children@, 0)
}

/// What one resolvable argument yields.
pub open spec fn resolve_arg(c: SyntaxNode) -> Seq<SqlBlock> {
    if c.kind == NodeKind::Str {
        str_block(c)
    } else if c.kind == NodeKind::Call {
        call_blocks(c)
    } else if c.kind == NodeKind::ConcatenatedString {
        concat_blocks(c)
    } else if c.kind == NodeKind::BinaryOperator {
        binop_blocks(c)
    } else {
        Seq::empty()
    }
}

/// What one argument list yields: the resolution of its first resolvable
/// child, or nothing.
pub open spec fn arg_blocks(n: SyntaxNode) -> Seq<SqlBlock> {
    match first_resolvable(n.children@) {
        Some(c) => resolve_arg(c),
        None => Seq::empty(),
    }
}

pub open spec fn has_resolvable(n: SyntaxNode) -> bool {
    first_resolvable(n.children@) is Some
}

/// What one query match yields: the resolution of its first captured
/// argument list that has a resolvable child; scanning stops there.
pub open spec fn match_blocks(caps: Seq<SyntaxNode>, i: int) -> Seq<SqlBlock>
    decreases caps.len() - i,
{
    if i < 0 || i >= caps.len() {
        Seq::empty()
    } else if caps[i].kind == NodeKind::ArgumentList && has_resolvable(caps[i]) {
        arg_blocks(caps[i])
    } else {
        match_blocks(caps, i + 1)
    }
}

/// What a whole file yields under the built-in call strategy: the matches'
/// blocks, in match order.
pub open spec fn builtin_blocks(ms: Seq<Seq<SyntaxNode>>, i: int) -> Seq<SqlBlock>
    decreases ms.len() - i,
{
    if i < 0 || i >= ms.len() {
        Seq::empty()
    } else {
        match_blocks(ms[i], 0) + builtin_blocks(ms, i + 1)
    }
}

// ---------------------------------------------------------------------
// The resolution rules, executed.
// ---------------------------------------------------------------------

/// Emits the block of a plain string literal, if its delimiters are found
/// and ordered.
pub fn basic_string_sql(str_node: &SyntaxNode, sql_blocks: &mut Vec<SqlBlock>)
    ensures
        final(sql_blocks)@ == old(sql_blocks)@ + str_block(*str_node),
{
    let ss = find_kind(&str_node.children, NodeKind::StringStart);
    let se = find_kind(&str_node.children, NodeKind::StringEnd);
    match (ss, se) {
        (Some(a), Some(b)) => {
            if a.end_byte <= b.start_byte {
                sql_blocks.push(SqlBlock { string_start: a.position(), string_end: b.position() });
                assert(sql_blocks@ =~= old(sql_blocks)@ + str_block(*str_node));
            } else {
                assert(sql_blocks@ =~= old(sql_blocks)@ + str_block(*str_node));
            }
        },
        _ => {
            assert(sql_blocks@ =~= old(sql_blocks)@ + str_block(*str_node));
        },
    }
}

/// Emits the receiver literal's block for a call on a string literal.
pub fn format_string_sql(call_node: &SyntaxNode, sql_blocks: &mut Vec<SqlBlock>)
    ensures
        final(sql_blocks)@ == old(sql_blocks)@ + call_blocks(*call_node),
{
    match find_field(&call_node.children, FieldKind::Function) {
        Some(attr_node) => {
            match find_field(&attr_node.children, FieldKind::Object) {
                Some(str_node) => {
                    if str_node.kind == NodeKind::Str {
                        basic_string_sql(str_node, sql_blocks);
                    } else {
                        assert(sql_blocks@ =~= old(sql_blocks)@ + call_blocks(*call_node));
                    }
                },
                None => {
                    assert(sql_blocks@ =~= old(sql_blocks)@ + call_blocks(*call_node));
                },
            }
        },
        None => {
            assert(sql_blocks@ =~= old(sql_blocks)@ + call_blocks(*call_node));
        },
    }
}

/// Emits one block per literal child of an adjacent concatenation.
pub fn weird_concat_str(cat_node: &SyntaxNode, sql_blocks: &mut Vec<SqlBlock>)
    ensures
        final(sql_blocks)@ == old(sql_blocks)@ + concat_blocks(*cat_node),
{
    concat_children_exec(cat_node, 0, sql_blocks);
}

fn concat_children_exec(n: &SyntaxNode, i: usize, blocks: &mut Vec<SqlBlock>)
    requires
        i <= n.children@.len(),
    ensures
        final(blocks)@ == old(blocks)@ + concat_children(n.children@, i as int),
    decreases n.children@.len() - i,
{
    if i < n.children.len() {
        let ghost pre = blocks@;
        let c = &n.children[i];
        if c.kind == NodeKind::Str {
            basic_string_sql(c, blocks);
        }
        concat_children_exec(n, i + 1, blocks);
        assert(blocks@ =~= old(blocks)@ + concat_children(n.children@, i as int));
    } else {
        assert(blocks@ =~= old(blocks)@ + concat_children(n.children@, i as int));
    }
}

/// Emits one block per literal leaf of a binary `+` concatenation, left to
/// right, recursing through nested operators.
pub fn binary_operator_str(infix_node: &SyntaxNode, sql_blocks: &mut Vec<SqlBlock>)
    ensures
        final(sql_blocks)@ == old(sql_blocks)@ + binop_blocks(*infix_node),
    decreases *infix_node, infix_node.children@.len() + 1,
{
    binop_children_exec(infix_node, 0, sql_blocks);
}

fn binop_children_exec(n: &SyntaxNode, i: usize, blocks: &mut Vec<SqlBlock>)
    requires
        i <= n.children@.len(),
    ensures
        final(blocks)@ == old(blocks)@ + binop_children(n.children@, i as int),
    decreases *n, n.children@.len() - i,
{
    if i < n.children.len() {
        let c = &n.children[i];
        if c.kind == NodeKind::Str {
            basic_string_sql(c, blocks);
        } else if c.kind == NodeKind::BinaryOperator {
            proof {
                assert(n.children@[i as int] == *c);
            }
            binary_operator_str(c, blocks);
        }
        binop_children_exec(n, i + 1, blocks);
        assert(blocks@ =~= old(blocks)@ + binop_children(n.children@, i as int));
    } else {
        assert(blocks@ =~= old(blocks)@ + binop_children(n.children@, i as int));
    }
}

/// Resolves one argument list: scans its children in order and resolves
/// the first one whose shape is recognized.
pub fn argument_list_sql(arg_list: &SyntaxNode, sql_blocks: &mut Vec<SqlBlock>)
    ensures
        final(sql_blocks)@ == old(sql_blocks)@ + arg_blocks(*arg_list),
{
    match find_resolvable(&arg_list.children) {
        Some(c) => {
            proof {
                assert(arg_blocks(*arg_list) == resolve_arg(*c));
            }
            if c.kind == NodeKind::Str {
                basic_string_sql(c, sql_blocks);
            } else if c.kind == NodeKind::Call {
                format_string_sql(c, sql_blocks);
            } else if c.kind == NodeKind::ConcatenatedString {
                weird_concat_str(c, sql_blocks);
            } else {
                proof {
                    assert(c.kind == NodeKind::BinaryOperator);
                }
                binary_operator_str(c, sql_blocks);
            }
        },
        None => {
            assert(sql_blocks@ =~= old(sql_blocks)@ + arg_blocks(*arg_list));
        },
    }
}

/// Resolves one query match: its first captured argument list with a
/// resolvable child, if any.
pub fn match_sql(caps: &Vec<Capture>, sql_blocks: &mut Vec<SqlBlock>)
    ensures
        final(sql_blocks)@ == old(sql_blocks)@ + match_blocks(cap_nodes(caps@), 0),
{
    match_sql_from(caps, 0, sql_blocks);
}

fn match_sql_from(caps: &Vec<Capture>, i: usize, blocks: &mut Vec<SqlBlock>)
    requires
        i <= caps@.len(),
    ensures
        final(blocks)@ == old(blocks)@ + match_blocks(cap_nodes(caps@), i as int),
    decreases caps@.len() - i,
{
    if i < caps.len() {
        let n = &caps[i].node;
        proof {
            assert(cap_nodes(caps@)[i as int] == *n);
        }
        let mut resolved = false;
        if n.kind == NodeKind::ArgumentList {
            match find_resolvable(&n.children) {
                Some(_) => {
                    argument_list_sql(n, blocks);
                    resolved = true;
                },
                None => {},
            }
        }
        if !resolved {
            match_sql_from(caps, i + 1, blocks);
        }
    } else {
        assert(blocks@ =~= old(blocks)@ + match_blocks(cap_nodes(caps@), i as int));
    }
}

/// Resolves a whole file's query matches under the built-in call
/// strategy, in match order.
pub fn builtin_sql_blocks(matches: &Vec<Vec<Capture>>) -> (r: Vec<SqlBlock>)
    ensures
        r@ == builtin_blocks(matches_nodes(matches@), 0),
{
    let mut blocks: Vec<SqlBlock> = Vec::new();
    builtin_from(matches, 0, &mut blocks);
    blocks
}

fn builtin_from(ms: &Vec<Vec<Capture>>, i: usize, blocks: &mut Vec<SqlBlock>)
    requires
        i <= ms@.len(),
    ensures
        final(blocks)@ == old(blocks)@ + builtin_blocks(matches_nodes(ms@), i as int),
    decreases ms@.len() - i,
{
    if i < ms.len() {
        proof {
            assert(matches_nodes(ms@)[i as int] == cap_nodes(ms@[i as int]@));
        }
        match_sql(&ms[i], blocks);
        builtin_from(ms, i + 1, blocks);
        assert(blocks@ =~= old(blocks)@ + builtin_blocks(matches_nodes(ms@), i as int));
    } else {
        assert(blocks@ =~= old(blocks)@ + builtin_blocks(matches_nodes(ms@), i as int));
    }
}

// ---------------------------------------------------------------------
// Ordering: extracted blocks are well formed, non-overlapping, and
// strictly increasing in source position.
// ---------------------------------------------------------------------

pub open spec fn blocks_wf(bs: Seq<SqlBlock>) -> bool {
    forall|i: int| 0 <= i < bs.len() ==> (#[trigger] bs[i]).wf()
}

/// Non-overlapping and strictly increasing: every block ends no later
/// than the next one starts.
pub open spec fn blocks_sorted(bs: Seq<SqlBlock>) -> bool {
    forall|i: int, j: int|
        0 <= i < j < bs.len() ==> (#[trigger] bs[i]).string_end.byte_range.end
            <= (#[trigger] bs[j]).string_start.byte_range.start
}

pub open spec fn blocks_in_span(bs: Seq<SqlBlock>, lo: int, hi: int) -> bool {
    forall|i: int|
        0 <= i < bs.len() ==> lo <= (#[trigger] bs[i]).string_start.byte_range.start
            && bs[i].string_end.byte_range.end <= hi
}

proof fn lemma_first_with_kind_mem(c: Seq<SyntaxNode>, k: NodeKind, x: SyntaxNode) -> (i:
    int)
    requires
        first_with_kind(c, k) == Some(x),
    ensures
        0 <= i < c.len(),
        c[i] == x,
    decreases c.len(),
{
    if c[0].kind == k {
        0
    } else {
        let j = lemma_first_with_kind_mem(c.drop_first(), k, x);
        assert(c[j + 1] == c.drop_first()[j]);
        j + 1
    }
}

proof fn lemma_first_with_field_mem(c: Seq<SyntaxNode>, f: FieldKind, x: SyntaxNode) -> (i:
    int)
    requires
        first_with_field(c, f) == Some(x),
    ensures
        0 <= i < c.len(),
        c[i] == x,
    decreases c.len(),
{
    if c[0].field == f {
        0
    } else {
        let j = lemma_first_with_field_mem(c.drop_first(), f, x);
        assert(c[j + 1] == c.drop_first()[j]);
        j + 1
    }
}

proof fn lemma_first_resolvable_mem(c: Seq<SyntaxNode>, x: SyntaxNode) -> (i: int)
    requires
        first_resolvable(c) == Some(x),
    ensures
        0 <= i < c.len(),
        c[i] == x,
    decreases c.len(),
{
    if resolvable(c[0].kind) {
        0
    } else {
        let j = lemma_first_resolvable_mem(c.drop_first(), x);
        assert(c[j + 1] == c.drop_first()[j]);
        j + 1
    }
}

proof fn lemma_str_block_ordered(n: SyntaxNode)
    requires
        n.wf(),
    ensures
        blocks_wf(str_block(n)),
        blocks_sorted(str_block(n)),
        blocks_in_span(str_block(n), n.start_byte as int, n.end_byte as int),
{
    match (
        first_with_kind(n.children@, NodeKind::StringStart),
        first_with_kind(n.children@, NodeKind::StringEnd),
    ) {
        (Some(ss), Some(se)) => {
            let i1 = lemma_first_with_kind_mem(n.children@, NodeKind::StringStart, ss);
            assert(n.children@[i1].wf());
            let i2 = lemma_first_with_kind_mem(n.children@, NodeKind::StringEnd, se);
            assert(n.children@[i2].wf());
        },
        _ => {},
    }
}

/// Concatenating two ordered block runs separated at `mid` yields an
/// ordered run.
proof fn lemma_blocks_concat(h: Seq<SqlBlock>, t: Seq<SqlBlock>, mid: int)
    requires
        blocks_wf(h),
        blocks_wf(t),
        blocks_sorted(h),
        blocks_sorted(t),
        forall|i: int| 0 <= i < h.len() ==> (#[trigger] h[i]).string_end.byte_range.end <= mid,
        forall|i: int| 0 <= i < t.len() ==> mid <= (#[trigger] t[i]).string_start.byte_range.start,
    ensures
        blocks_wf(h + t),
        blocks_sorted(h + t),
{
    assert forall|i: int| 0 <= i < (h + t).len() implies (#[trigger] (h + t)[i]).wf() by {
        if i < h.len() {
            assert((h + t)[i] == h[i]);
        } else {
            assert((h + t)[i] == t[i - h.len()]);
        }
    }
    assert forall|i: int, j: int|
        0 <= i < j < (h + t).len() implies (#[trigger] (h + t)[i]).string_end.byte_range.end <= (
    #[trigger] (h + t)[j]).string_start.byte_range.start by {
        if j < h.len() {
            assert((h + t)[i] == h[i] && (h + t)[j] == h[j]);
        } else if i >= h.len() {
            assert((h + t)[i] == t[i - h.len()] && (h + t)[j] == t[j - h.len()]);
        } else {
            assert((h + t)[i] == h[i] && (h + t)[j] == t[j - h.len()]);
        }
    }
}

proof fn lemma_concat_children_ordered(c: Seq<SyntaxNode>, i: int)
    requires
        0 <= i <= c.len(),
        forall|j: int| i <= j < c.len() ==> (#[trigger] c[j]).wf(),
        forall|j: int, k: int|
            i <= j < k < c.len() ==> (#[trigger] c[j]).end_byte <= (#[trigger] c[k]).start_byte,
    ensures
        blocks_wf(concat_children(c, i)),
        blocks_sorted(concat_children(c, i)),
        forall|x: int|
            0 <= x < concat_children(c, i).len() ==> exists|j: int|
                i <= j < c.len() && c[j].start_byte <= (#[trigger] concat_children(c, i)[x])
                    .string_start.byte_range.start && concat_children(c, i)[x]
                    .string_end.byte_range.end <= c[j].end_byte,
    decreases c.len() - i,
{
    if 0 <= i < c.len() {
        let h = if c[i].kind == NodeKind::Str {
            str_block(c[i])
        } else {
            Seq::<SqlBlock>::empty()
        };
        let t = concat_children(c, i + 1);
        lemma_str_block_ordered(c[i]);
        lemma_concat_children_ordered(c, i + 1);
        assert forall|x: int| 0 <= x < t.len() implies mid_le_start(t[x], c[i].end_byte as int) by {
            let j = choose|j: int|
                i + 1 <= j < c.len() && c[j].start_byte <= t[x].string_start.byte_range.start
                    && t[x].string_end.byte_range.end <= c[j].end_byte;
            assert(c[i].end_byte <= c[j].start_byte);
        }
        lemma_blocks_concat(h, t, c[i].end_byte as int);
        assert forall|x: int| 0 <= x < concat_children(c, i).len() implies exists|j: int|
            i <= j < c.len() && c[j].start_byte <= (#[trigger] concat_children(c, i)[x])
                .string_start.byte_range.start && concat_children(c, i)[x]
                .string_end.byte_range.end <= c[j].end_byte by {
            if x < h.len() {
                assert(concat_children(c, i)[x] == h[x]);
                assert(c[i].start_byte <= h[x].string_start.byte_range.start && h[x]
                    .string_end.byte_range.end <= c[i].end_byte);
            } else {
                assert(concat_children(c, i)[x] == t[x - h.len()]);
            }
        }
    }
}

spec fn mid_le_start(b: SqlBlock, mid: int) -> bool {
    mid <= b.string_start.byte_range.start
}

proof fn lemma_binop_children_ordered(c: Seq<SyntaxNode>, i: int)
    requires
        0 <= i <= c.len(),
        forall|j: int| i <= j < c.len() ==> (#[trigger] c[j]).wf(),
        forall|j: int, k: int|
            i <= j < k < c.len() ==> (#[trigger] c[j]).end_byte <= (#[trigger] c[k]).start_byte,
    ensures
        blocks_wf(binop_children(c, i)),
        blocks_sorted(binop_children(c, i)),
        forall|x: int|
            0 <= x < binop_children(c, i).len() ==> exists|j: int|
                i <= j < c.len() && c[j].start_byte <= (#[trigger] binop_children(c, i)[x])
                    .string_start.byte_range.start && binop_children(c, i)[x]
                    .string_end.byte_range.end <= c[j].end_byte,
    decreases c, c.len() - i,
{
    if 0 <= i < c.len() {
        let h = if c[i].kind == NodeKind::Str {
            str_block(c[i])
        } else if c[i].kind == NodeKind::BinaryOperator {
            binop_blocks(c[i])
        } else {
            Seq::<SqlBlock>::empty()
        };
        let t = binop_children(c, i + 1);
        lemma_str_block_ordered(c[i]);
        if c[i].kind == NodeKind::BinaryOperator {
            lemma_binop_blocks_ordered(c[i]);
        }
        lemma_binop_children_ordered(c, i + 1);
        assert forall|x: int| 0 <= x < t.len() implies mid_le_start(t[x], c[i].end_byte as int) by {
            let j = choose|j: int|
                i + 1 <= j < c.len() && c[j].start_byte <= t[x].string_start.byte_range.start
                    && t[x].string_end.byte_range.end <= c[j].end_byte;
            assert(c[i].end_byte <= c[j].start_byte);
        }
        lemma_blocks_concat(h, t, c[i].end_byte as int);
        assert forall|x: int| 0 <= x < binop_children(c, i).len() implies exists|j: int|
            i <= j < c.len() && c[j].start_byte <= (#[trigger] binop_children(c, i)[x])
                .string_start.byte_range.start && binop_children(c, i)[x]
                .string_end.byte_range.end <= c[j].end_byte by {
            if x < h.len() {
                assert(binop_children(c, i)[x] == h[x]);
                assert(c[i].start_byte <= h[x].string_start.byte_range.start && h[x]
                    .string_end.byte_range.end <= c[i].end_byte);
            } else {
                assert(binop_children(c, i)[x] == t[x - h.len()]);
            }
        }
    }
}

/// Concatenation resolution order: the literal leaves of a binary `+`
/// concatenation yield their blocks in left-to-right source order,
/// non-overlapping and strictly increasing, all within the operator
/// node's span.
pub proof fn lemma_binop_blocks_ordered(n: SyntaxNode)
    requires
        n.wf(),
    ensures
        blocks_wf(binop_blocks(n)),
        blocks_sorted(binop_blocks(n)),
        blocks_in_span(binop_blocks(n), n.start_byte as int, n.end_byte as int),
    decreases n, 0int,
{
    lemma_binop_children_ordered(n.children@, 0);
    let bs = binop_children(n.children@, 0);
    assert forall|x: int|
        0 <= x < bs.len() implies n.start_byte <= (#[trigger] bs[x]).string_start.byte_range.start
        && bs[x].string_end.byte_range.end <= n.end_byte by {
        let j = choose|j: int|
            0 <= j < n.children@.len() && n.children@[j].start_byte <= bs[x]
                .string_start.byte_range.start && bs[x].string_end.byte_range.end
                <= n.children@[j].end_byte;
        assert(n.children@[j].wf());
    }
    assert(blocks_in_span(binop_blocks(n), n.start_byte as int, n.end_byte as int));
}

proof fn lemma_call_blocks_ordered(n: SyntaxNode)
    requires
        n.wf(),
    ensures
        blocks_wf(call_blocks(n)),
        blocks_sorted(call_blocks(n)),
        blocks_in_span(call_blocks(n), n.start_byte as int, n.end_byte as int),
{
    match first_with_field(n.children@, FieldKind::Function) {
        Some(f) => {
            let i1 = lemma_first_with_field_mem(n.children@, FieldKind::Function, f);
            assert(n.children@[i1].wf());
            match first_with_field(f.children@, FieldKind::Object) {
                Some(obj) => {
                    let i2 = lemma_first_with_field_mem(f.children@, FieldKind::Object, obj);
                    assert(f.children@[i2].wf());
                    if obj.kind == NodeKind::Str {
                        lemma_str_block_ordered(obj);
                    }
                },
                None => {},
            }
        },
        None => {},
    }
}

/// Block-ordering invariant for one argument list: whatever resolution
/// rule fires, the extracted blocks are well formed, non-overlapping,
/// strictly increasing, and lie within the argument list's span.
pub proof fn lemma_arg_blocks_ordered(n: SyntaxNode)
    requires
        n.wf(),
    ensures
        blocks_wf(arg_blocks(n)),
        blocks_sorted(arg_blocks(n)),
        blocks_in_span(arg_blocks(n), n.start_byte as int, n.end_byte as int),
{
    match first_resolvable(n.children@) {
        Some(c) => {
            let ci = lemma_first_resolvable_mem(n.children@, c);
            assert(n.children@[ci].wf());
            if c.kind == NodeKind::Str {
                lemma_str_block_ordered(c);
            } else if c.kind == NodeKind::Call {
                lemma_call_blocks_ordered(c);
            } else if c.kind == NodeKind::ConcatenatedString {
                lemma_concat_children_ordered(c.children@, 0);
                let bs = concat_children(c.children@, 0);
                assert forall|x: int|
                    0 <= x < bs.len() implies c.start_byte <= (#[trigger] bs[x])
                    .string_start.byte_range.start && bs[x].string_end.byte_range.end
                    <= c.end_byte by {
                    let j = choose|j: int|
                        0 <= j < c.children@.len() && c.children@[j].start_byte <= bs[x]
                            .string_start.byte_range.start && bs[x].string_end.byte_range.end
                            <= c.children@[j].end_byte;
                    assert(c.children@[j].wf());
                }
                assert(blocks_in_span(concat_blocks(c), c.start_byte as int, c.end_byte as int));
            } else if c.kind == NodeKind::BinaryOperator {
                lemma_binop_blocks_ordered(c);
            }
        },
        None => {},
    }
}

/// Every block of one query match lies within the file: the blocks are
/// well formed and end no later than the captures they came from.
pub proof fn lemma_match_blocks_ok(caps: Seq<SyntaxNode>, i: int, n: int)
    requires
        0 <= i,
        forall|j: int|
            i <= j < caps.len() ==> (#[trigger] caps[j]).wf() && caps[j].end_byte <= n,
    ensures
        crate::block::blocks_in_code(match_blocks(caps, i), n),
    decreases caps.len() - i,
{
    if i < caps.len() {
        if caps[i].kind == NodeKind::ArgumentList && has_resolvable(caps[i]) {
            lemma_arg_blocks_ordered(caps[i]);
            let bs = arg_blocks(caps[i]);
            assert forall|x: int| 0 <= x < bs.len() implies (#[trigger] bs[x]).in_code(n) by {
                assert(bs[x].wf());
                assert(bs[x].string_end.byte_range.end <= caps[i].end_byte);
            }
        } else {
            lemma_match_blocks_ok(caps, i + 1, n);
        }
    }
}

/// Every block of a whole file's matches lies within the file.
pub proof fn lemma_builtin_blocks_ok(ms: Seq<Seq<SyntaxNode>>, i: int, n: int)
    requires
        0 <= i,
        forall|a: int, j: int|
            0 <= a < ms.len() && 0 <= j < ms[a].len() ==> (#[trigger] ms[a][j]).wf()
                && ms[a][j].end_byte <= n,
    ensures
        crate::block::blocks_in_code(builtin_blocks(ms, i), n),
    decreases ms.len() - i,
{
    if 0 <= i < ms.len() {
        lemma_match_blocks_ok(ms[i], 0, n);
        lemma_builtin_blocks_ok(ms, i + 1, n);
        let h = match_blocks(ms[i], 0);
        let t = builtin_blocks(ms, i + 1);
        assert forall|x: int|
            0 <= x < builtin_blocks(ms, i).len() implies (#[trigger] builtin_blocks(ms, i)[x])
            .in_code(n) by {
            if x < h.len() {
                assert(builtin_blocks(ms, i)[x] == h[x]);
                assert(h[x].in_code(n));
            } else {
                assert(builtin_blocks(ms, i)[x] == t[x - h.len()]);
                assert(t[x - h.len()].in_code(n));
            }
        }
    }
}

/// Block-ordering invariant for one query match of the built-in call
/// strategy: the extracted blocks are well formed, non-overlapping and
/// strictly increasing in start offset.
pub proof fn lemma_block_ordering(caps: Seq<SyntaxNode>, i: int)
    requires
        0 <= i,
        forall|j: int| i <= j < caps.len() ==> (#[trigger] caps[j]).wf(),
    ensures
        blocks_wf(match_blocks(caps, i)),
        blocks_sorted(match_blocks(caps, i)),
    decreases caps.len() - i,
{
    if i < caps.len() {
        if caps[i].kind == NodeKind::ArgumentList && has_resolvable(caps[i]) {
            lemma_arg_blocks_ordered(caps[i]);
        } else {
            lemma_block_ordering(caps, i + 1);
        }
    }
}

/// Every block of one query match lies within the span of one of the
/// match's captures.
proof fn lemma_match_blocks_within(caps: Seq<SyntaxNode>, i: int)
    requires
        0 <= i,
        forall|j: int| i <= j < caps.len() ==> (#[trigger] caps[j]).wf(),
    ensures
        forall|x: int|
            0 <= x < match_blocks(caps, i).len() ==> exists|j: int|
                i <= j < caps.len() && caps[j].start_byte <= (#[trigger] match_blocks(caps, i)[x])
                    .string_start.byte_range.start && match_blocks(caps, i)[x]
                    .string_end.byte_range.end <= caps[j].end_byte,
    decreases caps.len() - i,
{
    if i < caps.len() {
        if caps[i].kind == NodeKind::ArgumentList && has_resolvable(caps[i]) {
            lemma_arg_blocks_ordered(caps[i]);
            let bs = match_blocks(caps, i);
            assert forall|x: int| 0 <= x < bs.len() implies exists|j: int|
                i <= j < caps.len() && caps[j].start_byte <= (#[trigger] bs[x])
                    .string_start.byte_range.start && bs[x].string_end.byte_range.end
                    <= caps[j].end_byte by {
                assert(caps[i].start_byte <= bs[x].string_start.byte_range.start && bs[x]
                    .string_end.byte_range.end <= caps[i].end_byte);
            }
        } else {
            lemma_match_blocks_within(caps, i + 1);
            let bs = match_blocks(caps, i);
            assert(bs == match_blocks(caps, i + 1));
            assert forall|x: int| 0 <= x < bs.len() implies exists|j: int|
                i <= j < caps.len() && caps[j].start_byte <= (#[trigger] bs[x])
                    .string_start.byte_range.start && bs[x].string_end.byte_range.end
                    <= caps[j].end_byte by {
                let j = choose|j: int|
                    i + 1 <= j < caps.len() && caps[j].start_byte <= match_blocks(caps, i + 1)[x]
                        .string_start.byte_range.start && match_blocks(caps, i + 1)[x]
                        .string_end.byte_range.end <= caps[j].end_byte;
                assert(i <= j < caps.len() && caps[j].start_byte <= bs[x]
                    .string_start.byte_range.start && bs[x].string_end.byte_range.end
                    <= caps[j].end_byte);
            }
        }
    }
}

/// Every block of a file's matches lies within the span of one capture of
/// one of the matches.
proof fn lemma_builtin_blocks_within(ms: Seq<Seq<SyntaxNode>>, i: int)
    requires
        0 <= i,
        forall|a: int, j: int|
            0 <= a < ms.len() && 0 <= j < ms[a].len() ==> (#[trigger] ms[a][j]).wf(),
    ensures
        forall|x: int|
            0 <= x < builtin_blocks(ms, i).len() ==> exists|a: int, j: int|
                i <= a < ms.len() && 0 <= j < ms[a].len() && ms[a][j].start_byte <= (
                #[trigger] builtin_blocks(ms, i)[x]).string_start.byte_range.start
                    && builtin_blocks(ms, i)[x].string_end.byte_range.end <= ms[a][j].end_byte,
    decreases ms.len() - i,
{
    if 0 <= i < ms.len() {
        lemma_match_blocks_within(ms[i], 0);
        lemma_builtin_blocks_within(ms, i + 1);
        let h = match_blocks(ms[i], 0);
        let t = builtin_blocks(ms, i + 1);
        assert forall|x: int| 0 <= x < builtin_blocks(ms, i).len() implies exists|a: int, j: int|
            i <= a < ms.len() && 0 <= j < ms[a].len() && ms[a][j].start_byte <= (
            #[trigger] builtin_blocks(ms, i)[x]).string_start.byte_range.start && builtin_blocks(
            ms,
            i,
        )[x].string_end.byte_range.end <= ms[a][j].end_byte by {
            if x < h.len() {
                assert(builtin_blocks(ms, i)[x] == h[x]);
                let j = choose|j: int|
                    0 <= j < ms[i].len() && ms[i][j].start_byte <= h[x]
                        .string_start.byte_range.start && h[x].string_end.byte_range.end
                        <= ms[i][j].end_byte;
                assert(i <= i < ms.len() && 0 <= j < ms[i].len() && ms[i][j].start_byte
                    <= builtin_blocks(ms, i)[x].string_start.byte_range.start && builtin_blocks(
                    ms,
                    i,
                )[x].string_end.byte_range.end <= ms[i][j].end_byte);
            } else {
                assert(builtin_blocks(ms, i)[x] == t[x - h.len()]);
                let (a, j) = choose|a: int, j: int|
                    i + 1 <= a < ms.len() && 0 <= j < ms[a].len() && ms[a][j].start_byte <= t[x
                        - h.len()].string_start.byte_range.start && t[x
                        - h.len()].string_end.byte_range.end <= ms[a][j].end_byte;
                assert(i <= a < ms.len() && 0 <= j < ms[a].len() && ms[a][j].start_byte
                    <= builtin_blocks(ms, i)[x].string_start.byte_range.start && builtin_blocks(
                    ms,
                    i,
                )[x].string_end.byte_range.end <= ms[a][j].end_byte);
            }
        }
    }
}

/// Block-ordering invariant for a whole file under the built-in call
/// strategy: when the matches' captured nodes appear in ascending source
/// order, the extracted blocks are well formed, non-overlapping and
/// strictly increasing in start offset.
pub proof fn lemma_file_block_ordering(ms: Seq<Seq<SyntaxNode>>, i: int)
    requires
        0 <= i,
        forall|a: int, j: int|
            0 <= a < ms.len() && 0 <= j < ms[a].len() ==> (#[trigger] ms[a][j]).wf(),
        forall|a: int, b: int, x: int, y: int|
            0 <= a < b < ms.len() && 0 <= x < ms[a].len() && 0 <= y < ms[b].len() ==> (
            #[trigger] ms[a][x]).end_byte <= (#[trigger] ms[b][y]).start_byte,
    ensures
        blocks_wf(builtin_blocks(ms, i)),
        blocks_sorted(builtin_blocks(ms, i)),
    decreases ms.len() - i,
{
    if 0 <= i < ms.len() {
        lemma_block_ordering(ms[i], 0);
        lemma_match_blocks_within(ms[i], 0);
        lemma_file_block_ordering(ms, i + 1);
        lemma_builtin_blocks_within(ms, i + 1);
        let h = match_blocks(ms[i], 0);
        let t = builtin_blocks(ms, i + 1);
        let all = builtin_blocks(ms, i);
        assert forall|x: int| 0 <= x < all.len() implies (#[trigger] all[x]).wf() by {
            if x < h.len() {
                assert(all[x] == h[x]);
            } else {
                assert(all[x] == t[x - h.len()]);
            }
        }
        assert forall|x: int, y: int|
            0 <= x < y < all.len() implies (#[trigger] all[x]).string_end.byte_range.end <= (
        #[trigger] all[y]).string_start.byte_range.start by {
            if y < h.len() {
                assert(all[x] == h[x] && all[y] == h[y]);
            } else if x >= h.len() {
                assert(all[x] == t[x - h.len()] && all[y] == t[y - h.len()]);
            } else {
                assert(all[x] == h[x] && all[y] == t[y - h.len()]);
                let jx = choose|j: int|
                    0 <= j < ms[i].len() && ms[i][j].start_byte <= h[x]
                        .string_start.byte_range.start && h[x].string_end.byte_range.end
                        <= ms[i][j].end_byte;
                let (a, jy) = choose|a: int, j: int|
                    i + 1 <= a < ms.len() && 0 <= j < ms[a].len() && ms[a][j].start_byte <= t[y
                        - h.len()].string_start.byte_range.start && t[y
                        - h.len()].string_end.byte_range.end <= ms[a][j].end_byte;
                assert(ms[i][jx].end_byte <= ms[a][jy].start_byte);
            }
        }
    }
}

} // verus!
