use zztop::datafile::{
    datafile_in_home, dot_z_in, load_from, load_from_str, parse_line, resolve_datafile_path,
    Entry, LoadError, ReadFailure,
};

#[test]
fn parses_typical_line() {
    let entry = parse_line("/Users/me/Workspace/foo|10.5|1700000000").unwrap();
    assert_eq!(entry.path, "/Users/me/Workspace/foo");
    assert_eq!(entry.rank.parse::<f64>().unwrap(), 10.5);
    assert_eq!(entry.time, 1_700_000_000);
}

#[test]
fn handles_pipe_in_path() {
    let entry = parse_line("/weird|dir/foo|1.0|1700000000").unwrap();
    assert_eq!(entry.path, "/weird|dir/foo");
    assert_eq!(entry.rank.parse::<f64>().unwrap(), 1.0);
    assert_eq!(entry.time, 1_700_000_000);
}

#[test]
fn rejects_malformed_lines() {
    assert!(parse_line("").is_none());
    assert!(parse_line("nopipes").is_none());
    assert!(parse_line("only|onepipe").is_none());
    assert!(parse_line("/path|notanumber|1700000000").is_none());
    assert!(parse_line("/path|1.0|notanumber").is_none());
    assert!(parse_line("|1.0|1700000000").is_none()); // empty path
}

#[test]
fn rank_is_read_as_f64_reads() {
    let samples = [
        "1", "10.5", "1.", ".5", "+2.5E-3", "-7e10", "1e400", "inf", "-Infinity", "NaN",
        "+nan", "INF", "0", "00.00", ".", "e5", "1e", "1e+", "1.5.2", " 1", "1 ", "0x10",
        "1_0", "", "+", "-", "infinit", "nan1", "1e5.0", "..5", "5..", "١",
    ];
    for rank in samples {
        let line = format!("/p|{}|1", rank);
        assert_eq!(
            parse_line(&line).is_some(),
            rank.parse::<f64>().is_ok(),
            "rank text {:?}",
            rank
        );
    }
}

#[test]
fn parse_line_time_follows_u64_parsing() {
    assert_eq!(parse_line("/a|1|+42").unwrap().time, 42);
    assert_eq!(parse_line("/a|1|0").unwrap().time, 0);
    assert_eq!(parse_line("/a|1|18446744073709551615").unwrap().time, u64::MAX);
    assert!(parse_line("/a|1|18446744073709551616").is_none());
    assert!(parse_line("/a|1|-1").is_none());
    assert!(parse_line("/a|1|+").is_none());
    assert!(parse_line("/a|1|").is_none());
    assert!(parse_line("/a|1| 42").is_none());
    assert!(parse_line("/a|1|42 ").is_none());
}

#[test]
fn parse_line_keeps_unicode_and_empty_rank() {
    let e = parse_line("/home/zoë/日本|2|7").unwrap();
    assert_eq!(e, Entry { path: "/home/zoë/日本".to_string(), rank: "2".to_string(), time: 7 });
    assert!(parse_line("/x||7").is_none()); // an empty rank is not a number
}

#[test]
fn written_line_reads_back() {
    let path = "/a|b|c";
    let line = format!("{}|{}|{}", path, "3.25", 123456789u64);
    let e = parse_line(&line).unwrap();
    assert_eq!((e.path.as_str(), e.rank.as_str(), e.time), (path, "3.25", 123456789));
}

#[test]
fn load_from_mixed_fixture_skips_invalid() {
    let contents = "/a|1.0|100\ngarbage line\n/b|2.5|200\n\n";
    let entries = load_from_str(contents).unwrap();
    assert_eq!(entries.len(), 2);
    assert_eq!(entries[0].path, "/a");
    assert_eq!(entries[1].path, "/b");
}

#[test]
fn load_from_returns_empty_for_zero_byte_file() {
    match load_from(Ok::<String, ReadFailure>(String::new())) {
        Err(LoadError::Empty) => {}
        other => panic!("expected Empty, got {:?}", other),
    }
}

#[test]
fn load_from_returns_file_not_found() {
    match load_from(Err(ReadFailure::NotFound)) {
        Err(LoadError::FileNotFound) => {}
        other => panic!("expected FileNotFound, got {:?}", other),
    }
}

#[test]
fn load_from_reports_other_read_errors() {
    let read = Err(ReadFailure::Other(std::io::Error::from(
        std::io::ErrorKind::PermissionDenied,
    )));
    match load_from(read) {
        Err(LoadError::Io(e)) => assert_eq!(e.kind(), std::io::ErrorKind::PermissionDenied),
        other => panic!("expected Io, got {:?}", other),
    }
}

#[test]
fn white_space_only_datafile_is_empty() {
    assert!(matches!(load_from_str(" \n\t\r\n  "), Err(LoadError::Empty)));
    assert!(matches!(load_from_str("\u{a0}\u{2003}\n"), Err(LoadError::Empty)));
    let entries = load_from_str(" x \n").unwrap();
    assert!(entries.is_empty());
    assert!(load_from_str("/p|x|1").unwrap().is_empty());
}

#[test]
fn crlf_lines_and_final_line_ending() {
    let with_crlf = load_from_str("/a|1|1\r\n/b|2|2\r\n").unwrap();
    assert_eq!(with_crlf.len(), 2);
    assert_eq!(with_crlf[1].time, 2);
    let without_end = load_from_str("/a|1|1\n/b|2|2").unwrap();
    let with_end = load_from_str("/a|1|1\n/b|2|2\n").unwrap();
    assert_eq!(without_end, with_end);
    // A carriage return that ends the text without a newline stays in the line.
    assert!(load_from_str("/a|1|1\r").unwrap().is_empty());
}

#[test]
fn honors_z_data_env_var() {
    let p = b"/tmp/somewhere/custom-z".to_vec();
    let resolved = resolve_datafile_path(Some(p.clone())).unwrap();
    assert_eq!(resolved, p);
}

#[test]
fn empty_z_data_falls_back_to_home() {
    match resolve_datafile_path(Some(Vec::new())) {
        Ok(p) => assert!(p.ends_with(b".z")),
        Err(e) => assert!(matches!(e, LoadError::MissingHome)),
    }
}

#[test]
fn datafile_lives_in_home() {
    assert_eq!(datafile_in_home(Some(b"/home/me".to_vec())).unwrap(), b"/home/me/.z".to_vec());
    assert_eq!(dot_z_in(b"/home/me/".to_vec()), b"/home/me/.z".to_vec());
    assert_eq!(dot_z_in(Vec::new()), b".z".to_vec());
    assert!(matches!(datafile_in_home(None), Err(LoadError::MissingHome)));
}

#[test]
fn home_that_is_not_utf8_keeps_its_bytes() {
    let home = vec![b'/', b'h', 0xFF, 0xFE];
    let path = datafile_in_home(Some(home)).unwrap();
    assert_eq!(path, vec![b'/', b'h', 0xFF, 0xFE, b'/', b'.', b'z']);
    let custom = vec![b'/', 0x80, b'z'];
    assert_eq!(resolve_datafile_path(Some(custom.clone())).unwrap(), custom);
}

#[test]
fn load_error_messages_and_codes() {
    assert_eq!(LoadError::MissingHome.message(), "could not resolve $HOME");
    assert_eq!(LoadError::FileNotFound.message(), "no zsh-z data found");
    assert_eq!(LoadError::Empty.message(), "no zsh-z data found");
    let io = LoadError::Io(std::io::Error::other("disk on fire"));
    assert_eq!(io.message(), "failed to read zsh-z data: disk on fire");
    assert_eq!(LoadError::FileNotFound.exit_code(), 1);
    assert_eq!(LoadError::Empty.exit_code(), 1);
    assert_eq!(LoadError::MissingHome.exit_code(), 2);
    assert_eq!(io.exit_code(), 2);
}
