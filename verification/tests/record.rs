use collapse_xdebug::record::{characters, is_space_char, split_columns};
use collapse_xdebug::{parse_record, TraceError};

#[test]
fn columns_are_maximal_runs_of_non_space() {
    let chars = characters("  ab\tc  d\n");
    assert_eq!(split_columns(&chars), vec![(2, 4), (5, 6), (8, 9)]);
}

#[test]
fn columns_of_an_empty_line() {
    assert_eq!(split_columns(&characters("")), vec![]);
    assert_eq!(split_columns(&characters(" \t\r\n")), vec![]);
}

#[test]
fn columns_count_characters_not_bytes() {
    let chars = characters("é\u{3000}ab");
    assert_eq!(chars.len(), 4);
    assert_eq!(split_columns(&chars), vec![(0, 1), (2, 4)]);
}

#[test]
fn space_is_unicode_white_space() {
    for code in 0u32..0x11000 {
        if let Some(c) = char::from_u32(code) {
            assert_eq!(is_space_char(c), c.is_whitespace(), "U+{:04X}", code);
        }
    }
}

#[test]
fn short_lines_are_no_records() {
    assert!(matches!(parse_record(""), Ok(None)));
    assert!(matches!(parse_record("\n"), Ok(None)));
    assert!(matches!(parse_record("1 2 0"), Ok(None)));
    assert!(matches!(parse_record("Version: 2.6.0"), Ok(None)));
}

#[test]
fn a_short_line_is_skipped_before_its_flag_is_read() {
    assert!(matches!(parse_record("1 2 x"), Ok(None)));
}

#[test]
fn entry_has_name_and_path() {
    let record = parse_record("2\t1\t0\t0.000418\t246160\tfoo\t1\t/var/www/x.php\t5\t0\n")
        .unwrap()
        .unwrap();
    assert!(!record.is_exit);
    assert_eq!(record.time, "0.000418");
    assert_eq!(record.name.as_deref(), Some("foo"));
    assert_eq!(record.path.as_deref(), Some("/var/www/x.php"));
}

#[test]
fn entry_without_path() {
    let record = parse_record("2 1 0 0.5 246160 foo 1").unwrap().unwrap();
    assert!(!record.is_exit);
    assert_eq!(record.name.as_deref(), Some("foo"));
    assert_eq!(record.path, None);
}

#[test]
fn entry_without_name() {
    let record = parse_record("2 1 0 0.5").unwrap().unwrap();
    assert!(!record.is_exit);
    assert_eq!(record.time, "0.5");
    assert_eq!(record.name, None);
    assert_eq!(record.path, None);
}

#[test]
fn exit_reads_neither_name_nor_path() {
    let record = parse_record("2 1 1 0.75 246160 foo 1 /x.php").unwrap().unwrap();
    assert!(record.is_exit);
    assert_eq!(record.time, "0.75");
    assert_eq!(record.name, None);
    assert_eq!(record.path, None);
}

#[test]
fn bad_exit_flag_is_an_error() {
    match parse_record("2 1 2 0.75") {
        Err(TraceError::ExitFlag { token }) => assert_eq!(token, "2"),
        other => panic!("unexpected: {:?}", other),
    }
    match parse_record("2 1 01 0.75") {
        Err(TraceError::ExitFlag { token }) => assert_eq!(token, "01"),
        other => panic!("unexpected: {:?}", other),
    }
}
