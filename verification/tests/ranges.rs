//! Range translation: line-start tables and the match coordinate systems.

use sql_parse::block::{ByteRange, Point, SqlBlock};
use sql_parse::mapping::{block_lines, MatchRange};
use sql_parse::ts::Exec;

fn ts_block(input: &str) -> SqlBlock {
    Exec::new()
        .sql_blocks(input.as_bytes())
        .expect("parser should accept the file")
        .pop()
        .expect("one block expected")
}

fn get_first_rng(input: &str, re_str: &str) -> MatchRange {
    let block = ts_block(input);
    let sql = block.inner_text(input.as_bytes());
    let re = regex::bytes::Regex::new(re_str).unwrap();
    let m = re.find(sql).expect("not testing the lack of matches");
    let rng = ByteRange { start: m.start(), end: m.end() };
    let lines = block_lines(input.as_bytes());
    MatchRange::from_regex_match(&block, &rng, &lines, input.as_bytes())
}

#[test]
fn one_liner() {
    let input = r#"crs.execute("SELECT 'yo'; SELECT 'hi'";)"#;
    let rng = get_first_rng(input, "SELECT");
    let expected = MatchRange {
        abs_match_range: ByteRange { start: 13, end: 19 },
        block_match_range: ByteRange { start: 0, end: 6 },
        start_point: Point { row: 0, column: 13 },
        abs_line_range: ByteRange { start: 0, end: 40 },
        line_match_range: ByteRange { start: 13, end: 19 },
    };
    assert_eq!(rng, expected);
    assert_eq!(rng.match_length(), 6);
}

#[test]
fn multi_liner_first_line() {
    let input = "crs.execute(\"\"\"SELECT 'yo';\nSELECT 'hi'\"\"\";)";
    let expected = MatchRange {
        abs_match_range: ByteRange { start: 15, end: 21 },
        block_match_range: ByteRange { start: 0, end: 6 },
        start_point: Point { row: 0, column: 15 },
        abs_line_range: ByteRange { start: 0, end: 27 },
        line_match_range: ByteRange { start: 15, end: 21 },
    };
    let rng = get_first_rng(input, "SELECT");
    assert_eq!(rng, expected);
    assert_eq!(rng.match_length(), 6);
}

#[test]
fn multi_liner_second_line() {
    let input = "crs.execute(\"\"\"\nSELECT 'yo';\nSELECT 'hi'\"\"\";)";
    let rng = get_first_rng(input, "SELECT");
    let expected = MatchRange {
        abs_match_range: ByteRange { start: 16, end: 22 },
        block_match_range: ByteRange { start: 1, end: 7 },
        start_point: Point { row: 1, column: 0 },
        abs_line_range: ByteRange { start: 16, end: 28 },
        line_match_range: ByteRange { start: 0, end: 6 },
    };
    assert_eq!(rng, expected);
    assert_eq!(rng.match_length(), 6);
}

#[test]
fn multi_line_pattern() {
    let input = "crs.execute(\"\"\"foo\nSELECT 'yo';\nSELECT 'hi'\"\"\";)";
    let rng = get_first_rng(input, "foo\nSELECT");
    let expected = MatchRange {
        abs_match_range: ByteRange { start: 15, end: 25 },
        block_match_range: ByteRange { start: 0, end: 10 },
        start_point: Point { row: 0, column: 15 },
        abs_line_range: ByteRange { start: 0, end: 31 },
        line_match_range: ByteRange { start: 15, end: 25 },
    };
    assert_eq!(rng, expected);
    assert_eq!(rng.match_length(), 10);
}

#[test]
fn multi_line_pattern_second_line() {
    let input = "crs.execute(\"\"\"\nfoo\nSELECT 'yo';\nSELECT 'hi'\"\"\";)";
    let rng = get_first_rng(input, "foo\nSELECT");
    let expected = MatchRange {
        abs_match_range: ByteRange { start: 16, end: 26 },
        block_match_range: ByteRange { start: 1, end: 11 },
        start_point: Point { row: 1, column: 0 },
        abs_line_range: ByteRange { start: 16, end: 32 },
        line_match_range: ByteRange { start: 0, end: 10 },
    };
    assert_eq!(rng, expected);
    assert_eq!(rng.match_length(), 10);
}

#[test]
fn rg_test_block_lines() {
    let input = "hello\nworld";
    let expected = vec![0, 6];
    assert_eq!(block_lines(input.as_bytes()), expected);
}

#[test]
fn utils_test_block_lines() {
    let input = "hello\nworld";
    let expected = vec![0, 6];
    assert_eq!(block_lines(input.as_bytes()), expected);
}

#[test]
fn first_match_row_and_column() {
    let input = "crs.execute(\"\"\"\nSELECT 'yo';\nSELECT 'hi'\"\"\";)";
    let rng = get_first_rng(input, "SELECT");
    assert_eq!(rng.start_point.row, 1);
    assert_eq!(rng.start_point.column, 0);
}

#[test]
fn range_round_trip() {
    let input = "crs.execute(\"\"\"foo\nSELECT 'yo';\nSELECT 'hi'\"\"\";)";
    let block = ts_block(input);
    let rng = get_first_rng(input, "foo\nSELECT");
    let bytes = input.as_bytes();
    let abs = &bytes[rng.abs_match_range.start..rng.abs_match_range.end];
    let inner = block.inner_text(bytes);
    let blk = &inner[rng.block_match_range.start..rng.block_match_range.end];
    let line = &bytes[rng.abs_line_range.start..rng.abs_line_range.end];
    let lin = &line[rng.line_match_range.start..rng.line_match_range.end];
    assert_eq!(abs, blk);
    assert_eq!(abs, lin);
}

#[test]
fn shifted_ranges() {
    let rng = MatchRange {
        abs_match_range: ByteRange { start: 10, end: 14 },
        block_match_range: ByteRange { start: 2, end: 6 },
        start_point: Point { row: 1, column: 2 },
        abs_line_range: ByteRange { start: 8, end: 20 },
        line_match_range: ByteRange { start: 2, end: 6 },
    };
    let up = rng.shifted_ranged(3);
    assert_eq!(up.abs_match_range, ByteRange { start: 13, end: 17 });
    assert_eq!(up.block_match_range, ByteRange { start: 5, end: 9 });
    assert_eq!(up.start_point, Point { row: 1, column: 2 });
    let down = rng.shifted_ranged(-2);
    assert_eq!(down.abs_match_range, ByteRange { start: 8, end: 12 });
    assert_eq!(down.line_match_range, ByteRange { start: 0, end: 4 });
}
