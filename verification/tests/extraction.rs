//! Block extraction through the real parser: the built-in call strategy,
//! custom queries, and the passthrough strategy.

use sql_parse::block::SqlBlock;
use sql_parse::capture::{CaptureGroup, QueryError};
use sql_parse::capture::validate_capture_groups;
use sql_parse::no_ts::NoTS;
use sql_parse::ts::{CustomQuery, Exec};

const SQL_STRING: &str = r#"
(string
    (string_start) @ss
    (string_content) @str (#match? @str "SELECT|FROM|WHERE|UPDATE|INSERT")
    (string_end) @se)"#;

fn exec_blocks(code: &str) -> Vec<SqlBlock> {
    Exec::new().sql_blocks(code.as_bytes()).expect("parser should accept the file")
}

fn inner(code: &str, b: &SqlBlock) -> String {
    String::from_utf8(b.inner_text(code.as_bytes()).to_vec()).unwrap()
}

#[test]
fn multi_match_file() {
    let code = r#"
crs.execute('SELECT 1 FROM foo')
crs.execute(f'SELECT 2 FROM foo WHERE x = {x}')
crs.execute("SELECT 3 FROM bar")
crs.execute(f"SELECT 4 FROM foo WHERE x = {x}")
crs.execute(f"""
    SELECT 5 FROM foo
""")

crs.execute(f"""
    SELECT 6 FROM foo where x = {x} AND y = {y}
""")

crs.execute('SELECT 1 FROM foo', "foo")
crs.execute('SELECT 1 FROM {foo}'.format(foo="foo"))
crs.execute('foo ' 'bar')
crs.execute('eggs' + 'spam')
crs.execute('green' + 'eggs' + 'spam')
"#;

    let expect = [
        "SELECT 1 FROM foo",
        "SELECT 2 FROM foo WHERE x = {x}",
        "SELECT 3 FROM bar",
        "SELECT 4 FROM foo WHERE x = {x}",
        "\n    SELECT 5 FROM foo\n",
        "\n    SELECT 6 FROM foo where x = {x} AND y = {y}\n",
        "SELECT 1 FROM foo",
        "SELECT 1 FROM {foo}",
        "foo ",
        "bar",
        "eggs",
        "spam",
        "green",
        "eggs",
        "spam",
    ];

    let blocks = exec_blocks(code);
    assert_eq!(blocks.len(), expect.len());
    for (idx, &sql) in expect.iter().enumerate() {
        assert_eq!(sql, inner(code, &blocks[idx]));
    }
}

#[test]
fn custom_multi_match_file() {
    let code = r#"
crs.execute('SELECT 1 FROM foo')
crs.execute(f'SELECT 2 FROM foo WHERE x = {x}')
crs.execute("SELECT 3 FROM bar")
crs.execute(f"SELECT 4 FROM foo WHERE x = {x}")
crs.execute(f"""
    SELECT 5 FROM foo
""")

crs.execute(f"""
    SELECT 6 FROM foo where x = {x} AND y = {y}
""")

crs.execute('SELECT 1 FROM foo', "foo")
crs.execute('SELECT 1 FROM {foo}'.format(foo="foo"))
        "#;

    let expect = [
        "SELECT 1 FROM foo",
        "SELECT 2 FROM foo WHERE x = {x}",
        "SELECT 3 FROM bar",
        "SELECT 4 FROM foo WHERE x = {x}",
        "\n    SELECT 5 FROM foo\n",
        "\n    SELECT 6 FROM foo where x = {x} AND y = {y}\n",
        "SELECT 1 FROM foo",
        "SELECT 1 FROM {foo}",
    ];

    let ts = CustomQuery::from_query(SQL_STRING).expect("the query is valid");
    let blocks = ts.sql_blocks(code.as_bytes()).expect("parser should accept the file");
    assert_eq!(blocks.len(), expect.len());
    for (blk, &exp) in blocks.iter().zip(expect.iter()) {
        assert_eq!(inner(code, blk), exp);
    }
}

#[test]
fn from_string() {
    let _ = CustomQuery::from_query(SQL_STRING).unwrap();
}

#[test]
fn matching_node_ranges() {
    let code = r#"
crs.execute('SELECT 1 FROM foo')
crs.execute(f'SELECT 2 FROM foo WHERE x = {x}')
crs.execute("SELECT 3 FROM bar")
crs.execute(f"SELECT 4 FROM foo WHERE x = {x}")
crs.execute(f"""
    SELECT 5 FROM foo
""")

crs.execute(f"""
    SELECT 6 FROM foo where x = {x} AND y = {y}
""")
"#;

    let expect = [
        "SELECT 1 FROM foo",
        "SELECT 2 FROM foo WHERE x = {x}",
        "SELECT 3 FROM bar",
        "SELECT 4 FROM foo WHERE x = {x}",
        "\n    SELECT 5 FROM foo\n",
        "\n    SELECT 6 FROM foo where x = {x} AND y = {y}\n",
    ];

    let blocks = exec_blocks(code);
    assert_eq!(blocks.len(), expect.len());
    for (idx, &sql) in expect.iter().enumerate() {
        assert_eq!(sql, inner(code, &blocks[idx]));
    }
}

#[test]
fn concatenation_resolution_order() {
    let code = "crs.execute('a' + 'b' + 'c')";
    let blocks = exec_blocks(code);
    assert_eq!(blocks.len(), 3);
    assert_eq!(inner(code, &blocks[0]), "a");
    assert_eq!(inner(code, &blocks[1]), "b");
    assert_eq!(inner(code, &blocks[2]), "c");
    for w in blocks.windows(2) {
        assert!(w[0].string_end.byte_range.end <= w[1].string_start.byte_range.start);
        assert!(w[0].string_start.byte_range.start < w[1].string_start.byte_range.start);
    }
}

#[test]
fn bad_query_syntax() {
    match CustomQuery::from_query("(((") {
        Err(QueryError::BadQuerySyntax) => {}
        other => panic!("expected a syntax error, got {:?}", other.is_ok()),
    }
}

#[test]
fn missing_capture_group() {
    match CustomQuery::from_query("(string (string_start) @ss)") {
        Err(QueryError::MissingCaptureGroup(CaptureGroup::StringEnd)) => {}
        _ => panic!("expected the end capture to be reported missing"),
    }
}

#[test]
fn missing_start_capture_group() {
    match CustomQuery::from_query("(string (string_end) @se)") {
        Err(QueryError::MissingCaptureGroup(CaptureGroup::StringStart)) => {}
        _ => panic!("expected the start capture to be reported missing"),
    }
}

#[test]
fn duplicate_capture_group() {
    let groups = vec![
        CaptureGroup::StringStart,
        CaptureGroup::StringStart,
        CaptureGroup::StringEnd,
    ];
    assert_eq!(
        validate_capture_groups(&groups),
        Err(QueryError::DuplicateCaptureGroup(CaptureGroup::StringStart))
    );
    let groups = vec![
        CaptureGroup::StringStart,
        CaptureGroup::StringEnd,
        CaptureGroup::StringEnd,
    ];
    assert_eq!(
        validate_capture_groups(&groups),
        Err(QueryError::DuplicateCaptureGroup(CaptureGroup::StringEnd))
    );
    let groups = vec![CaptureGroup::StringStart, CaptureGroup::StringEnd, CaptureGroup::Sql];
    assert_eq!(validate_capture_groups(&groups), Ok(()));
}

#[test]
fn blank_file() {
    let code = "";
    let blocks = NoTS::new().sql_blocks(code.as_bytes());
    assert_eq!(blocks.len(), 1);
    assert_eq!(blocks[0].inner_text(code.as_bytes()), code.as_bytes());
}

#[test]
fn one_char() {
    let code = "a";
    let blocks = NoTS::new().sql_blocks(code.as_bytes());
    assert_eq!(blocks.len(), 1);
    assert_eq!(blocks[0].inner_text(code.as_bytes()), code.as_bytes());
}

#[test]
fn passthrough_one_liner() {
    let code = "foobar";
    let blocks = NoTS::new().sql_blocks(code.as_bytes());
    assert_eq!(blocks.len(), 1);
    assert_eq!(blocks[0].inner_text(code.as_bytes()), code.as_bytes());
    assert_eq!(blocks[0].string_end.point.row, 0);
    assert_eq!(blocks[0].string_end.point.column, 6);
}

#[test]
fn one_ish_liner() {
    let code = "foobar\n";
    let blocks = NoTS::new().sql_blocks(code.as_bytes());
    assert_eq!(blocks.len(), 1);
    assert_eq!(blocks[0].inner_text(code.as_bytes()), code.as_bytes());
    assert_eq!(blocks[0].string_end.point.row, 1);
    assert_eq!(blocks[0].string_end.point.column, 0);
}

#[test]
fn multi_liner() {
    let code = "foo\nbar\nbaz";
    let blocks = NoTS::new().sql_blocks(code.as_bytes());
    assert_eq!(blocks.len(), 1);
    assert_eq!(blocks[0].inner_text(code.as_bytes()), code.as_bytes());
    assert_eq!(blocks[0].string_end.point.row, 2);
    assert_eq!(blocks[0].string_end.point.column, 3);
}
