//! Quote normalization: delimiter rewrites, prefix preservation, and
//! idempotence.

use sql_parse::block::SqlBlock;
use sql_parse::quotes::replace_quotes;
use sql_parse::quotes::{is_f_string, normalize_file};
use sql_parse::ts::Exec;

fn exec_blocks(code: &[u8]) -> Vec<SqlBlock> {
    Exec::new().sql_blocks(code).expect("parser should accept the file")
}

#[test]
fn single_quotes_replace() {
    let mut code = String::from(r"crs.execute('SELECT 1 FROM foo')").into_bytes();
    let expect = r#"crs.execute("""SELECT 1 FROM foo""")"#;

    let blocks = exec_blocks(&code);
    assert_eq!(blocks.len(), 1);
    replace_quotes(&mut code, &blocks[0]);

    assert_eq!(code, expect.as_bytes());
}

#[test]
fn single_quote_f_replace() {
    let mut code = String::from(r"crs.execute(f'SELECT 1 FROM foo where x = {x}')").into_bytes();
    let expect = r#"crs.execute(f"""SELECT 1 FROM foo where x = {x}""")"#;

    let blocks = exec_blocks(&code);
    assert_eq!(blocks.len(), 1);
    replace_quotes(&mut code, &blocks[0]);

    assert_eq!(code, expect.as_bytes());
}

#[test]
fn triple_quotes_replace() {
    let mut code = String::from(r#"crs.execute("""SELECT 1 FROM foo""")"#).into_bytes();
    let expect = r#"crs.execute("""SELECT 1 FROM foo""")"#;

    let blocks = exec_blocks(&code);
    assert_eq!(blocks.len(), 1);
    replace_quotes(&mut code, &blocks[0]);

    assert_eq!(code, expect.as_bytes());
}

#[test]
fn triple_quotes_f_replace() {
    let mut code =
        String::from(r#"crs.execute(f"""SELECT 1 FROM foo where x = {x}""")"#).into_bytes();
    let expect = r#"crs.execute(f"""SELECT 1 FROM foo where x = {x}""")"#;

    let blocks = exec_blocks(&code);
    assert_eq!(blocks.len(), 1);
    replace_quotes(&mut code, &blocks[0]);

    assert_eq!(code, expect.as_bytes());
}

#[test]
fn multi_line_replace() {
    let mut code = String::from(
        "\ncrs.execute(f\"\"\"\n    SELECT 6 FROM foo where x = {x} AND y = {y}\n\"\"\")",
    )
    .into_bytes();

    let expect = "\ncrs.execute(f\"\"\"\n    SELECT 6 FROM foo where x = {x} AND y = {y}\n\"\"\")";

    let blocks = exec_blocks(&code);
    assert_eq!(blocks.len(), 1);
    replace_quotes(&mut code, &blocks[0]);

    assert_eq!(code, expect.as_bytes());
}

#[test]
fn multiple_blocks() {
    let mut code = String::from(
        "\ncrs.execute('SELECT 1 FROM foo')\ncrs.execute(f'SELECT 2 FROM foo WHERE x = {x}')\ncrs.execute(f\"\"\"\n    SELECT 5 FROM foo\n\"\"\")\n\ncrs.execute(f\"\"\"\n    SELECT 6 FROM foo where x = {x} AND y = {y}\n\"\"\")",
    )
    .into_bytes();

    let expect = "\ncrs.execute(\"\"\"SELECT 1 FROM foo\"\"\")\ncrs.execute(f\"\"\"SELECT 2 FROM foo WHERE x = {x}\"\"\")\ncrs.execute(f\"\"\"\n    SELECT 5 FROM foo\n\"\"\")\n\ncrs.execute(f\"\"\"\n    SELECT 6 FROM foo where x = {x} AND y = {y}\n\"\"\")";

    let blocks = exec_blocks(&code);
    for block in blocks.iter().rev() {
        replace_quotes(&mut code, block);
    }

    assert_eq!(code, expect.as_bytes());
}

#[test]
fn normalize_is_idempotent() {
    let mut code = String::from(r"crs.execute(f'SELECT 1 FROM foo')").into_bytes();
    let blocks = exec_blocks(&code);
    assert_eq!(blocks.len(), 1);
    let changed = replace_quotes(&mut code, &blocks[0]);
    assert!(changed);
    let once = code.clone();

    let blocks2 = exec_blocks(&code);
    assert_eq!(blocks2.len(), 1);
    let changed2 = replace_quotes(&mut code, &blocks2[0]);
    assert!(!changed2);
    assert_eq!(code, once);
}

#[test]
fn prefix_preserved() {
    let mut code = String::from(r"crs.execute(f'SELECT {x}')").into_bytes();
    let blocks = exec_blocks(&code);
    replace_quotes(&mut code, &blocks[0]);
    assert_eq!(code, r#"crs.execute(f"""SELECT {x}""")"#.as_bytes());
}

#[test]
fn builtin_block_and_normalize() {
    let source = "crs.execute('SELECT 1 FROM foo')";
    let mut code = String::from(source).into_bytes();
    let blocks = exec_blocks(&code);
    assert_eq!(blocks.len(), 1);
    assert_eq!(blocks[0].inner_text(source.as_bytes()), b"SELECT 1 FROM foo");
    replace_quotes(&mut code, &blocks[0]);
    assert_eq!(code, r#"crs.execute("""SELECT 1 FROM foo""")"#.as_bytes());
}

#[test]
fn normalize_file_counts_changes() {
    let mut code =
        String::from("crs.execute('a FROM b')\ncrs.execute(\"\"\"c SELECT d\"\"\")").into_bytes();
    let blocks = exec_blocks(&code);
    assert_eq!(blocks.len(), 2);
    let count = normalize_file(&mut code, &blocks);
    assert_eq!(count, 1);
    assert_eq!(
        code,
        "crs.execute(\"\"\"a FROM b\"\"\")\ncrs.execute(\"\"\"c SELECT d\"\"\")".as_bytes()
    );
}

#[test]
fn f_string_detection() {
    assert!(is_f_string(b"f'"));
    assert!(!is_f_string(b"'"));
    assert!(!is_f_string(b""));
}
