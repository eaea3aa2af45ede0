//! Trusted interface to the syntax-tree parser, and the two query-based
//! extraction strategies built on it.
//!
//! Parsing and query evaluation are deterministic functions of the query
//! text and the file bytes, so their results are given names
//! (`ts_matches_of`, `ts_capture_names_of`) that the trusted wrappers
//! apply; the strategies' contracts pin their blocks to those names.

use vstd::prelude::*;

use tree_sitter::StreamingIterator;

use crate::block::{blocks_in_code, SqlBlock};
use crate::capture::{
    capture_group_of, custom_blocks, custom_sql_blocks, groups_of, lemma_custom_blocks_ok,
    lemma_custom_blocks_sorted, validate_capture_groups, validate_spec, CaptureGroup, QueryError,
};
use crate::extract::{
    blocks_sorted, blocks_wf, builtin_blocks, builtin_sql_blocks, caps_view,
    lemma_builtin_blocks_ok, lemma_file_block_ordering, matches_nodes, nodes_of, Capture,
};
use crate::node::{FieldKind, NodeKind, SyntaxNode};

verus! {

#[verifier::external_type_specification]
#[verifier::external_body]
pub struct ExNode<'a>(tree_sitter::Node<'a>);

/// What running a query over a file parses out: per query match, the
/// captures with their names and converted subtrees — a function of the
/// query text and the file bytes under the fixed Python grammar — or
/// nothing when the parser or the query cannot be set up.
pub uninterp spec fn ts_matches_of(query: Seq<char>, code: Seq<u8>) -> Option<Seq<Seq<Capture>>>;

/// The capture names a query declares, in order, or nothing when the
/// query text is rejected — a function of the query text under the fixed
/// Python grammar.
pub uninterp spec fn ts_capture_names_of(query: Seq<char>) -> Option<Seq<Seq<u8>>>;

pub open spec fn names_view(ns: Seq<Vec<u8>>) -> Seq<Seq<u8>> {
    ns.map_values(|n: Vec<u8>| n@)
}

/// Relies on the kind names of the Python grammar: each kind the
/// extraction reads is mapped to its tag, one arm per kind, everything
/// else to `Other`.
#[verifier::external_body]
fn kind_of(k: &str) -> (r: NodeKind) {
    match k {
        "string" => NodeKind::Str,
        "string_start" => NodeKind::StringStart,
        "string_end" => NodeKind::StringEnd,
        "concatenated_string" => NodeKind::ConcatenatedString,
        "binary_operator" => NodeKind::BinaryOperator,
        "call" => NodeKind::Call,
        "argument_list" => NodeKind::ArgumentList,
        "attribute" => NodeKind::Attribute,
        _ => NodeKind::Other,
    }
}

/// Relies on the field names of the Python grammar: the two fields the
/// extraction reads are mapped one arm each, everything else to `Other`.
#[verifier::external_body]
fn field_of(f: Option<&str>) -> (r: FieldKind) {
    match f {
        Some("function") => FieldKind::Function,
        Some("object") => FieldKind::Object,
        _ => FieldKind::Other,
    }
}

/// Relies on tree_sitter::Node (kind, byte offsets, start_position,
/// children, field_name_for_child): converts one node and its subtree,
/// field by field, into the plain model.  A concrete syntax tree has
/// ordered, nested, non-overlapping spans and newline-counting rows, so
/// the converted tree is well formed.
#[verifier::external_body]
fn convert_node(node: tree_sitter::Node<'_>, field: FieldKind) -> (r: SyntaxNode)
    ensures
        r.wf(),
{
    let mut children = Vec::new();
    let mut cursor = node.walk();
    for (i, ch) in node.children(&mut cursor).enumerate() {
        children.push(convert_node(ch, field_of(node.field_name_for_child(i as u32))));
    }
    let p = node.start_position();
    SyntaxNode {
        kind: kind_of(node.kind()),
        field,
        start_byte: node.start_byte(),
        end_byte: node.end_byte(),
        row: p.row,
        column: p.column,
        children,
    }
}

/// The matches' captured nodes appear in ascending source order across
/// matches — what the query cursor yields in practice, taken as an
/// explicit hypothesis because the binding's documentation does not
/// promise a capture order.
pub open spec fn matches_ascending(ms: Seq<Seq<SyntaxNode>>) -> bool {
    forall|a: int, b: int, x: int, y: int|
        0 <= a < b < ms.len() && 0 <= x < ms[a].len() && 0 <= y < ms[b].len() ==> (
        #[trigger] ms[a][x]).end_byte <= (#[trigger] ms[b][y]).start_byte
}

/// Every captured node of every match is a well-formed tree lying within
/// the `n` bytes that were parsed.
pub open spec fn captures_ok(ms: Seq<Vec<Capture>>, n: int) -> bool {
    forall|a: int, j: int|
        0 <= a < ms.len() && 0 <= j < ms[a]@.len() ==> (#[trigger] ms[a]@[j]).node.wf()
            && ms[a]@[j].node.end_byte <= n
}

/// Relies on tree_sitter::Query::new against the Python grammar: the
/// query's capture names, exactly when the query text is accepted —
/// compilation is deterministic, so success and the names are pinned to
/// `ts_capture_names_of`.
#[verifier::external_body]
fn ts_capture_names(query: &str) -> (r: Option<Vec<Vec<u8>>>)
    ensures
        r is Some <==> ts_capture_names_of(query@) is Some,
        match r {
            Some(ns) => ts_capture_names_of(query@) == Some(names_view(ns@)),
            None => true,
        },
{
    let lang = tree_sitter::Language::new(tree_sitter_python::LANGUAGE);
    let q = tree_sitter::Query::new(&lang, query).ok()?;
    Some(q.capture_names().iter().map(|n| n.as_bytes().to_vec()).collect())
}

/// Relies on Parser::parse and QueryCursor::matches over the Python
/// grammar: parses the code, runs the query, and converts every match's
/// captures — name and node subtree — to plain values.  Both steps are
/// deterministic in the query and the bytes, so success and the matches
/// are pinned to `ts_matches_of`; captured nodes lie within the parsed
/// text.
#[verifier::external_body]
fn ts_query_captures(query: &str, code: &[u8]) -> (r: Option<Vec<Vec<Capture>>>)
    ensures
        r is Some <==> ts_matches_of(query@, code@) is Some,
        match r {
            Some(ms) => ts_matches_of(query@, code@) == Some(caps_view(ms@)) && captures_ok(
                ms@,
                code@.len() as int,
            ),
            None => true,
        },
{
    let lang = tree_sitter::Language::new(tree_sitter_python::LANGUAGE);
    let mut parser = tree_sitter::Parser::new();
    parser.set_language(&lang).ok()?;
    let tree = parser.parse(code, None)?;
    let q = tree_sitter::Query::new(&lang, query).ok()?;
    let names = q.capture_names();
    let mut cursor = tree_sitter::QueryCursor::new();
    let mut ms = cursor.matches(&q, tree.root_node(), code);
    let mut out = Vec::new();
    while let Some(m) = ms.next() {
        out.push(m.captures().iter().map(|c| convert_capture(names[c.index as usize], c.node)).collect());
    }
    Some(out)
}

/// Relies on Node and the query's capture names: pairs one capture's name
/// with its converted subtree.
#[verifier::external_body]
fn convert_capture(name: &str, node: tree_sitter::Node<'_>) -> (r: Capture)
    ensures
        r.node.wf(),
{
    Capture { name: name.as_bytes().to_vec(), node: convert_node(node, FieldKind::Other) }
}

/// The built-in query: calls of the shape `<object>.<method>(...)`,
/// capturing the argument list.
pub open spec fn builtin_query_view() -> Seq<char> {
    "(call function: (attribute) arguments: (argument_list) @args)"@
}

fn builtin_query() -> (r: &'static str)
    ensures
        r@ == builtin_query_view(),
{
    "(call function: (attribute) arguments: (argument_list) @args)"
}

/// The built-in call strategy: a fixed query finds method calls, and the
/// first resolvable argument of each call yields the blocks.
pub struct Exec {}

impl Exec {
    pub fn new() -> (r: Exec) {
        Exec {}
    }

    /// The file's blocks under the built-in call strategy: exactly the
    /// resolution of the built-in query's matches, in match order, or
    /// nothing exactly when the parser cannot process the file.  Every
    /// returned block lies within the file; when the matches come in
    /// ascending source order, the blocks are non-overlapping and
    /// strictly increasing.
    pub fn sql_blocks(&self, code: &[u8]) -> (r: Option<Vec<SqlBlock>>)
        ensures
            r is Some <==> ts_matches_of(builtin_query_view(), code@) is Some,
            match r {
                Some(bs) => (ts_matches_of(builtin_query_view(), code@) matches Some(cm)
                    && bs@ == builtin_blocks(nodes_of(cm), 0)) && blocks_in_code(
                    bs@,
                    code@.len() as int,
                ),
                None => true,
            },
            r matches Some(bs) ==> (ts_matches_of(builtin_query_view(), code@) matches Some(cm)
                ==> (matches_ascending(nodes_of(cm)) ==> blocks_wf(bs@) && blocks_sorted(bs@))),
    {
        match ts_query_captures(builtin_query(), code) {
            Some(ms) => {
                let blocks = builtin_sql_blocks(&ms);
                proof {
                    lemma_builtin_blocks_ok(matches_nodes(ms@), 0, code@.len() as int);
                    assert(matches_nodes(ms@) =~= nodes_of(caps_view(ms@)));
                    let nodes = matches_nodes(ms@);
                    assert forall|a: int, j: int|
                        0 <= a < nodes.len() && 0 <= j < nodes[a].len() implies (
                    #[trigger] nodes[a][j]).wf() by {
                        assert(nodes[a] == crate::extract::cap_nodes(ms@[a]@));
                        assert(nodes[a][j] == ms@[a]@[j].node);
                    }
                    if matches_ascending(nodes) {
                        lemma_file_block_ordering(nodes, 0);
                    }
                }
                Some(blocks)
            },
            None => None,
        }
    }
}

/// The custom-query strategy: a user-supplied query whose `ss` and `se`
/// captures give each block's delimiters directly.
pub struct CustomQuery {
    pub query: String,
}

impl CustomQuery {
    /// Validates and keeps a user query: construction succeeds exactly
    /// when the query compiles and binds exactly one `ss` and one `se`
    /// capture; a query the compiler rejects is `BadQuerySyntax`, and a
    /// missing or duplicated tag is reported as that tag's error.
    pub fn from_query(query: &str) -> (r: Result<CustomQuery, QueryError>)
        ensures
            r is Ok <==> (ts_capture_names_of(query@) matches Some(ns) && validate_spec(
                groups_of(ns),
            ) is Ok),
            ts_capture_names_of(query@) is None ==> r == Err::<CustomQuery, QueryError>(
                QueryError::BadQuerySyntax,
            ),
            ts_capture_names_of(query@) matches Some(ns) ==> (validate_spec(
                groups_of(ns),
            ) matches Err(e) ==> r == Err::<CustomQuery, QueryError>(e)),
            match r {
                Ok(c) => c.query@ == query@,
                Err(_) => true,
            },
    {
        match ts_capture_names(query) {
            None => Err(QueryError::BadQuerySyntax),
            Some(names) => {
                let ghost gs = groups_of(names_view(names@));
                let mut groups: Vec<CaptureGroup> = Vec::new();
                let mut i: usize = 0;
                while i < names.len()
                    invariant
                        i <= names@.len(),
                        gs == groups_of(names_view(names@)),
                        groups@ == gs.subrange(0, i as int),
                    decreases names@.len() - i,
                {
                    groups.push(capture_group_of(names[i].as_slice()));
                    proof {
                        assert(names_view(names@)[i as int] == names@[i as int]@);
                        assert(gs[i as int] == crate::capture::capture_group_of_spec(
                            names@[i as int]@,
                        ));
                        assert(groups@ =~= gs.subrange(0, i + 1));
                    }
                    i = i + 1;
                }
                proof {
                    assert(groups@ =~= gs);
                }
                match validate_capture_groups(&groups) {
                    Ok(()) => Ok(CustomQuery { query: query.to_owned() }),
                    Err(e) => Err(e),
                }
            },
        }
    }

    /// The file's blocks under the custom query: exactly the tagged
    /// boundaries of the query's matches, in match order, or nothing
    /// exactly when the parser cannot process the file.  Every returned
    /// block lies within the file; when the matches come in ascending
    /// source order, the blocks are non-overlapping and strictly
    /// increasing.
    pub fn sql_blocks(&self, code: &[u8]) -> (r: Option<Vec<SqlBlock>>)
        ensures
            r is Some <==> ts_matches_of(self.query@, code@) is Some,
            match r {
                Some(bs) => (ts_matches_of(self.query@, code@) matches Some(cm) && bs@
                    == custom_blocks(cm, 0)) && blocks_in_code(bs@, code@.len() as int),
                None => true,
            },
            r matches Some(bs) ==> (ts_matches_of(self.query@, code@) matches Some(cm) ==> (
            matches_ascending(nodes_of(cm)) ==> blocks_wf(bs@) && blocks_sorted(bs@))),
    {
        match ts_query_captures(self.query.as_str(), code) {
            Some(ms) => {
                let blocks = custom_sql_blocks(&ms);
                proof {
                    let cv = caps_view(ms@);
                    assert forall|a: int, j: int|
                        0 <= a < cv.len() && 0 <= j < cv[a].len() implies (
                    #[trigger] cv[a][j]).node.wf() && cv[a][j].node.end_byte
                        <= code@.len() as int by {
                        assert(cv[a] == ms@[a]@);
                    }
                    lemma_custom_blocks_ok(cv, 0, code@.len() as int);
                    if matches_ascending(nodes_of(cv)) {
                        assert forall|a: int, b: int, x: int, y: int|
                            0 <= a < b < cv.len() && 0 <= x < cv[a].len() && 0 <= y
                                < cv[b].len() implies (#[trigger] cv[a][x]).node.end_byte <= (
                        #[trigger] cv[b][y]).node.start_byte by {
                            assert(nodes_of(cv)[a] == crate::extract::cap_nodes(cv[a]));
                            assert(nodes_of(cv)[b] == crate::extract::cap_nodes(cv[b]));
                            assert(crate::extract::cap_nodes(cv[a])[x] == cv[a][x].node);
                            assert(crate::extract::cap_nodes(cv[b])[y] == cv[b][y].node);
                        }
                        lemma_custom_blocks_sorted(cv, 0);
                    }
                }
                Some(blocks)
            },
            None => None,
        }
    }
}

} // verus!
