//! Parsing search-tool output rows, and the path and option helpers.

use sql_parse::cli::{is_python_file, Basics, Cli, Commands, RegexOptions, RegexPattern};
use sql_parse::no_ts::NoTS;
use sql_parse::rg_output::{FileMatches, Match};

#[test]
fn match_from() {
    let line = r#"3:1:crs.execute("SELECT * FROM foo")"#;
    let m = Match::from(line.as_bytes());
    assert_eq!(m.lnum, 3);
    assert_eq!(m.col_start, 1);
    assert_eq!(m.col_end, 1);
}

#[test]
fn filematches_from() {
    let lines = r#"test/a.py
3:1:crs.execute("SELECT * FROM foo")
5:1:crs.execute("SELECT * FROM foo")
6:1:crs.execute("SELECT * FROM foo")
7:1:crs.execute("SELECT * FROM foo")
8:1:crs.execute("SELECT * FROM foo")"#;

    let fm = FileMatches::from(lines.as_bytes());
    assert_eq!(fm.path, b"test/a.py");
    assert_eq!(fm.matches.len(), 5);
}

#[test]
fn match_from_trims_whitespace() {
    let m = Match::from(b"  12:34:rest of line  ");
    assert_eq!(m.lnum, 12);
    assert_eq!(m.col_start, 34);
    assert_eq!(m.col_end, 34);
}

#[test]
fn python_file_filter() {
    assert!(is_python_file(b"a.py"));
    assert!(is_python_file(b"dir/sub/a.PY"));
    assert!(is_python_file(b"x.Py"));
    assert!(!is_python_file(b"a.rs"));
    assert!(!is_python_file(b".py"));
    assert!(!is_python_file(b"dir/.py"));
    assert!(!is_python_file(b"apy"));
    assert!(!is_python_file(b"a.pyc"));
}

#[test]
fn cli_tree_sitter_option() {
    let cli = Cli {
        command: Commands::TS(Basics {
            treesitter_query: Some(b"q.scm".to_vec()),
            search_paths: vec![b"a.py".to_vec()],
        }),
    };
    let (q, no_ts) = cli.tree_sitter();
    assert_eq!(q.map(|v| v.as_slice()), Some(b"q.scm".as_slice()));
    assert!(!no_ts);

    let cli = Cli {
        command: Commands::Regex(RegexOptions {
            treesitter_query: None,
            regex: RegexPattern { regex: Some(b"SELECT".to_vec()), regex_file: None },
            search_paths: vec![],
            ignore_case: false,
            invert_match: false,
            multiline: false,
            replace: None,
            confirm: false,
            no_ts: true,
        }),
    };
    let (q, no_ts) = cli.tree_sitter();
    assert!(q.is_none());
    assert!(no_ts);
}

#[test]
fn zero_or_minus_one_clamps() {
    assert_eq!(NoTS::zero_or_minus_one(0), 0);
    assert_eq!(NoTS::zero_or_minus_one(1), 0);
    assert_eq!(NoTS::zero_or_minus_one(5), 4);
}

#[test]
fn case_insensitive_regex_build() {
    let re = sql_parse::re::build_regex(b"select", true, false).expect("valid pattern");
    assert_eq!(re.find_ranges(b"SELECT").len(), 1);
    let re = sql_parse::re::build_regex(b"select", false, false).expect("valid pattern");
    assert!(re.find_ranges(b"SELECT").is_empty());
    assert!(sql_parse::re::build_regex(b"(", false, false).is_none());
}
