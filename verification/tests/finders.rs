//! The finder strategies and the diff rendering around them.

use sql_parse::block::{ByteRange, Point, Position, SqlBlock};
use sql_parse::display::{format_decimal, format_match_line, CodeDiff, Color};
use sql_parse::finder::{
    ConfirmAns, ConfirmSession, FileState, FindChoice, InverseSearch, PlainSearch, Replace,
    ReplaceConfirm,
};
use sql_parse::mapping::{block_lines, MatchRange};
use sql_parse::re::{build_regex, replace_in_range, replace_in_range_partitioned, Pattern};
use sql_parse::ts::Exec;

fn ts_block(input: &str) -> SqlBlock {
    Exec::new()
        .sql_blocks(input.as_bytes())
        .expect("parser should accept the file")
        .pop()
        .expect("one block expected")
}

fn get_first_rng(input: &str, re_str: &str) -> MatchRange {
    let block = ts_block(input);
    let sql = block.inner_text(input.as_bytes());
    let re = regex::bytes::Regex::new(re_str).unwrap();
    let m = re.find(sql).expect("not testing the lack of matches");
    let rng = ByteRange { start: m.start(), end: m.end() };
    let lines = block_lines(input.as_bytes());
    MatchRange::from_regex_match(&block, &rng, &lines, input.as_bytes())
}

#[test]
fn new_line() {
    let input = r#"crs.execute("SELECT 'yo'; SELECT 'hi';")"#;
    let rng = get_first_rng(input, "SELECT");
    let actual = CodeDiff::new_line(input.as_bytes(), &rng).with_diff_color(Color::Green);
    let expect = "crs.execute(\"\u{1b}[32mSELECT\u{1b}[0m 'yo'; SELECT 'hi';\")";

    assert_eq!(actual, expect.as_bytes());
}

#[test]
fn multi_line() {
    let input = "crs.execute(\"\"\"foo\nSELECT 'yo';\nSELECT 'hi';\"\"\")";
    let rng = get_first_rng(input, "foo\nSELECT");
    let actual = CodeDiff::new_line(input.as_bytes(), &rng).with_diff_color(Color::Green);
    assert_eq!(
        actual,
        "crs.execute(\"\"\"\u{1b}[32mfoo\nSELECT\u{1b}[0m 'yo';".as_bytes()
    );
}

#[test]
fn new_block() {
    let input = "crs.execute(\"\"\"\nSELECT 'yo';\nSELECT 'hi';\"\"\")";
    let block = ts_block(input);
    let rng = get_first_rng(input, "SELECT");

    let actual = CodeDiff::new_block(block.inner_text(input.as_bytes()), &rng)
        .with_diff_color(Color::Green);
    let expect = "\n\u{1b}[32mSELECT\u{1b}[0m 'yo';\nSELECT 'hi';";
    assert_eq!(actual, expect.as_bytes());
}

#[test]
fn test_replace_in_range_1() {
    let regex = build_regex(br"\d+", false, false).unwrap();
    let text = "The numbers 1234 are here, and 5678 are there.";
    let range = ByteRange { start: 16, end: 42 };
    let result = replace_in_range(&regex, text.as_bytes(), range, b"****");
    assert_eq!(result, b"The numbers 1234 are here, and **** are there.");
}

#[test]
fn test_replace_in_range_2() {
    let regex = build_regex(br"\d+", false, false).unwrap();
    let text = "The numbers 1234 are here, and 5678 are there.";
    let range = ByteRange { start: 16, end: 42 };
    let result = replace_in_range(&regex, text.as_bytes(), range, b"<REDACTED>");
    assert_eq!(result, b"The numbers 1234 are here, and <REDACTED> are there.");
}

#[test]
fn test_replace_in_range_partitioned_1() {
    let regex = build_regex(br"\d+", false, false).unwrap();
    let text = "The numbers 1234 are here, and 5678 are there.";
    let range = ByteRange { start: 16, end: 42 };
    let result = replace_in_range_partitioned(&regex, text.as_bytes(), range, b"****");
    assert_eq!(result.0, b"The numbers 1234");
    assert_eq!(result.1, b" are here, and **** are th");
    assert_eq!(result.2, b"ere.");
}

#[test]
fn test_replace_in_range_partitioned_2() {
    let regex = build_regex(br"\d+", false, false).unwrap();
    let text = "The numbers 1234 are here, and 5678 are there.";
    let range = ByteRange { start: 16, end: 42 };
    let result = replace_in_range_partitioned(&regex, text.as_bytes(), range, b"<REDACTED>");
    assert_eq!(result.0, b"The numbers 1234");
    assert_eq!(result.1, b" are here, and <REDACTED> are th");
    assert_eq!(result.2, b"ere.");
}

fn file_state(path: &str, code: &str) -> FileState {
    FileState::new(path.as_bytes().to_vec(), code.as_bytes().to_vec())
}

#[test]
fn inverse_search_prints_matchless_block_once() {
    let code = "crs.execute('SELECT 1 FROM foo')";
    let blocks = Exec::new().sql_blocks(code.as_bytes()).unwrap();
    assert_eq!(blocks.len(), 1);
    let finder = InverseSearch::new_finder(build_regex(b"UPDATE", false, false).unwrap());
    let file = file_state("test.py", code);
    let (lines, choice) = finder.find_in_file(&blocks, &file, false);
    assert_eq!(choice, FindChoice::Continue);
    assert_eq!(lines.len(), 1);
    assert_eq!(lines[0], b"test.py:1:SELECT 1 FROM foo");
}

#[test]
fn inverse_search_skips_matching_block() {
    let code = "crs.execute('SELECT 1 FROM foo')";
    let blocks = Exec::new().sql_blocks(code.as_bytes()).unwrap();
    let finder = InverseSearch::new_finder(build_regex(b"SELECT", false, false).unwrap());
    let file = file_state("test.py", code);
    let (lines, _) = finder.find_in_file(&blocks, &file, false);
    assert_eq!(lines.len(), 0);
}

#[test]
fn plain_search_reports_coordinates() {
    let code = "crs.execute(\"\"\"\nSELECT 'yo';\nSELECT 'hi'\"\"\")";
    let blocks = Exec::new().sql_blocks(code.as_bytes()).unwrap();
    let finder = PlainSearch::new_finder(build_regex(b"SELECT", false, false).unwrap());
    let file = file_state("a.py", code);
    let (lines, choice) = finder.find_in_file(&blocks, &file, false);
    assert_eq!(choice, FindChoice::Continue);
    assert_eq!(lines.len(), 2);
    assert_eq!(
        lines[0],
        "a.py:2:1:\u{1b}[32mSELECT\u{1b}[0m 'yo';".as_bytes()
    );
    assert_eq!(
        lines[1],
        "a.py:3:1:\u{1b}[32mSELECT\u{1b}[0m 'hi'\"\"\")".as_bytes()
    );
}

#[test]
fn replace_rewrites_blocks_only() {
    let code = "x = 1\ncrs.execute('a 1 b 1')\ny = 1\n";
    let blocks = Exec::new().sql_blocks(code.as_bytes()).unwrap();
    assert_eq!(blocks.len(), 1);
    let finder = Replace::new_finder(build_regex(b"1", false, false).unwrap(), b"9".to_vec());
    let file = file_state("a.py", code);
    let (new_code, count) = finder.find_in_file(&blocks, &file).expect("ordered blocks");
    assert_eq!(count, 1);
    assert_eq!(new_code, "x = 1\ncrs.execute('a 9 b 9')\ny = 1\n".as_bytes());
}

#[test]
fn replace_supports_group_references() {
    let code = "crs.execute('ab ab')";
    let blocks = Exec::new().sql_blocks(code.as_bytes()).unwrap();
    let finder = Replace::new_finder(
        build_regex(b"(a)(b)", false, false).unwrap(),
        b"${2}${1}".to_vec(),
    );
    let file = file_state("a.py", code);
    let (new_code, _) = finder.find_in_file(&blocks, &file).unwrap();
    assert_eq!(new_code, "crs.execute('ba ba')".as_bytes());
}

#[test]
fn confirm_answers_parse() {
    assert_eq!(ConfirmAns::from_char('y'), Some(ConfirmAns::Yes));
    assert_eq!(ConfirmAns::from_char('Y'), Some(ConfirmAns::Yes));
    assert_eq!(ConfirmAns::from_char('n'), Some(ConfirmAns::No));
    assert_eq!(ConfirmAns::from_char('a'), Some(ConfirmAns::All));
    assert_eq!(ConfirmAns::from_char('q'), Some(ConfirmAns::Quit));
    assert_eq!(ConfirmAns::from_char('x'), None);
}

fn whole_block(len: usize) -> SqlBlock {
    SqlBlock {
        string_start: Position {
            byte_range: ByteRange { start: 0, end: 0 },
            point: Point { row: 0, column: 0 },
        },
        string_end: Position {
            byte_range: ByteRange { start: len, end: len },
            point: Point { row: 0, column: len },
        },
    }
}

#[test]
fn confirm_session_tracks_shift_and_replacements() {
    let code = "ab cd ab";
    let re: Pattern = build_regex(b"ab", false, false).unwrap();
    let block = whole_block(code.len());
    let lines = block_lines(code.as_bytes());

    let confirm = ReplaceConfirm::new_finder(build_regex(b"ab", false, false).unwrap(), b"X".to_vec());
    let mut session = ConfirmSession::new();
    session.start_block(code.as_bytes());

    let found: Vec<ByteRange> = re.find_ranges(code.as_bytes());
    assert_eq!(found.len(), 2);

    let rng0 = MatchRange::from_regex_match(&block, &found[0], &lines, code.as_bytes());
    session.accept(&re, &rng0, b"X");
    assert_eq!(session.display_sql, b"X cd ab");
    assert_eq!(session.shift, -1);

    let rng1 = MatchRange::from_regex_match(&block, &found[1], &lines, code.as_bytes());
    let shown = session.display_range(&rng1);
    assert_eq!(shown.block_match_range, ByteRange { start: 5, end: 7 });
    session.accept(&re, &rng1, b"X");
    assert_eq!(session.display_sql, b"X cd X");

    let new_code = confirm
        .process_replacements(&session.replacements, code.as_bytes())
        .expect("accepted ranges are ordered");
    assert_eq!(new_code, b"X cd X");
}

#[test]
fn answer_routing() {
    let code = "ab ab";
    let re: Pattern = build_regex(b"ab", false, false).unwrap();
    let block = whole_block(code.len());
    let lines = block_lines(code.as_bytes());
    let found = re.find_ranges(code.as_bytes());
    let rng0 = MatchRange::from_regex_match(&block, &found[0], &lines, code.as_bytes());
    let rng1 = MatchRange::from_regex_match(&block, &found[1], &lines, code.as_bytes());

    let mut session = ConfirmSession::new();
    session.start_block(code.as_bytes());
    session.apply_answer(ConfirmAns::No, &re, &rng0, b"X");
    assert_eq!(session.replacements.len(), 0);
    assert_eq!(session.display_sql, code.as_bytes());
    session.apply_answer(ConfirmAns::Yes, &re, &rng0, b"X");
    assert_eq!(session.replacements.len(), 1);
    assert_eq!(session.display_sql, b"X ab");
    session.apply_answer(ConfirmAns::Quit, &re, &rng1, b"X");
    assert!(session.quit);
    assert_eq!(session.replacements.len(), 1);
}

#[test]
fn confirm_diff_sides() {
    let code = "ab cd";
    let confirm = ReplaceConfirm::new_finder(build_regex(b"ab", false, false).unwrap(), b"X".to_vec());
    let block = whole_block(code.len());
    let lines = block_lines(code.as_bytes());
    let rng = MatchRange::from_regex_match(
        &block,
        &ByteRange { start: 0, end: 2 },
        &lines,
        code.as_bytes(),
    );
    let left = confirm.left_side_diff(code.as_bytes(), &rng);
    assert_eq!(left, "\u{1b}[31mab\u{1b}[0m cd".as_bytes());
    let right = confirm.right_side_diff(code.as_bytes(), &rng);
    assert_eq!(right, "\u{1b}[32mX\u{1b}[0m cd".as_bytes());
}

#[test]
fn decimal_formatting() {
    assert_eq!(format_decimal(0), b"0");
    assert_eq!(format_decimal(7), b"7");
    assert_eq!(format_decimal(1203), b"1203");
}

#[test]
fn match_line_formatting() {
    assert_eq!(
        format_match_line(b"a.py", 3, Some(7), b"text", false),
        b"a.py:3:7:text"
    );
    assert_eq!(format_match_line(b"a.py", 3, None, b"text", false), b"a.py:3:text");
    assert_eq!(
        format_match_line(b"a.py", 3, None, b"t", true),
        "\u{1b}[35ma.py\u{1b}[0m:\u{1b}[32m3\u{1b}[0m:t".as_bytes()
    );
}
