use tuna::{EntryAssembler, LogEntry, Source};

fn raw(line: &str) -> LogEntry {
    LogEntry::from_raw(line).unwrap()
}

#[test]
fn raw_header_line_is_parsed() {
    let e = raw("2024-01-15T10:00:00.123Z [authd] user alice logged in");
    assert_eq!(e.date_time, "10:00:00.123");
    assert_eq!(e.one_line_message, "user alice logged in");
    assert_eq!(e.message, "user alice logged in");
    assert_eq!(e.lines_count, 1);
    assert_eq!(e.lower_case_message, "user alice logged in");
    assert_eq!(e.source.name, "authd");
    assert_eq!(e.date.year, 2024);
    assert_eq!(e.date.month, 1);
    assert_eq!(e.date.day, 15);
    assert_eq!(e.date.utc_offset, 0);
}

#[test]
fn raw_source_token_with_trailing_colon() {
    let e = raw("2024-01-15T10:00:00.123Z [authd]: user alice logged in");
    assert_eq!(e.source.name, "authd");
    assert_eq!(e.message, "user alice logged in");
    assert_eq!(e.source, Source::new("authd".to_string()));
}

#[test]
fn raw_header_split() {
    let parts = LogEntry::split_raw_header("a b c d").unwrap();
    assert_eq!(parts, ("a".to_string(), "b".to_string(), "c d".to_string()));
    let parts = LogEntry::split_raw_header("a\tb\u{3000}c").unwrap();
    assert_eq!(parts, ("a".to_string(), "b".to_string(), "c".to_string()));
    assert!(LogEntry::split_raw_header("a b").is_none());
    assert!(LogEntry::split_raw_header("").is_none());
}

#[test]
fn raw_rejects_bad_headers() {
    assert!(LogEntry::from_raw("    at frame 0").is_none());
    assert!(LogEntry::from_raw("2024-01-15T10:00:00.123Z [] short source").is_none());
    assert_eq!(LogEntry::from_raw("2024-01-15T10:00:00.123Z [a] x").unwrap().source.name, "a");
    assert_eq!(LogEntry::from_raw("2024-01-15T10:00:00.123Z [ab: x").unwrap().source.name, "a");
    assert!(LogEntry::from_raw("not-a-dateZ [authd] message").is_none());
    assert!(LogEntry::from_raw("2024-01-15T10:00:00.123Z").is_none());
    assert!(LogEntry::from_raw("2024-13-15T10:00:00.123Z [authd] month 13").is_none());
}

#[test]
fn raw_empty_message_has_one_line() {
    let e = raw("2024-01-15T10:00:00.000Z [abc] ");
    assert_eq!(e.message, "");
    assert_eq!(e.one_line_message, "");
    assert_eq!(e.lines_count, 1);
}

#[test]
fn continuation_lines_join_the_entry() {
    let mut assembler = EntryAssembler::new();
    assert!(assembler.push_raw_line("2024-01-15T10:00:00.000Z [api] stack trace:").is_none());
    assert!(assembler.push_raw_line("    at frame 0").is_none());
    let e = assembler.finish().unwrap();
    assert_eq!(e.message, "stack trace:\n    at frame 0");
    assert_eq!(e.lines_count, 2);
    assert_eq!(e.one_line_message, "stack trace:");
    assert_eq!(e.lower_case_message, "stack trace:\n    at frame 0");
    assert!(assembler.finish().is_none());
}

#[test]
fn one_multi_line_entry_counts_its_lines() {
    let mut assembler = EntryAssembler::new();
    assert!(assembler.push_raw_line("2024-01-15T10:00:00.000Z [api] Line ONE").is_none());
    for i in 0..4 {
        assert!(assembler.push_raw_line(&format!("MORE {i}")).is_none());
    }
    let e = assembler.finish().unwrap();
    assert_eq!(e.lines_count, 5);
    assert_eq!(e.one_line_message, "Line ONE");
    assert_eq!(e.lower_case_message, "line one\nmore 0\nmore 1\nmore 2\nmore 3");
}

#[test]
fn lines_before_the_first_header_are_dropped() {
    let mut assembler = EntryAssembler::new();
    assert!(assembler.push_raw_line("orphan line").is_none());
    assert!(assembler.push_raw_line("2024-01-15T10:00:00.000Z [web] first").is_none());
    let first = assembler.push_raw_line("2024-01-15T10:00:01.000Z [web] second").unwrap();
    assert_eq!(first.message, "first");
    let second = assembler.finish().unwrap();
    assert_eq!(second.message, "second");
    assert_eq!(second.date_time, "10:00:01.000");
}

#[test]
fn json_fields_make_an_entry() {
    let e = LogEntry::from_fields(
        "Hello\nWorld".to_string(),
        "15 Jan 2024 10:00:00.123 +0100",
        "svc".to_string(),
    )
    .unwrap();
    assert_eq!(e.date_time, "10:00:00.123");
    assert_eq!(e.date.utc_offset, 3600);
    assert_eq!(e.one_line_message, "Hello");
    assert_eq!(e.lines_count, 2);
    assert_eq!(e.lower_case_message, "hello\nworld");
    assert_eq!(e.source.name, "svc");
    assert!(LogEntry::from_fields("m".to_string(), "yesterday", "svc".to_string()).is_none());
}

#[test]
fn json_entries_pass_through_the_assembler() {
    let mut assembler = EntryAssembler::new();
    let a = LogEntry::from_fields("a".to_string(), "1 Feb 2024 00:00:00.000 +0000", "x".to_string()).unwrap();
    let b = LogEntry::from_fields("b".to_string(), "1 Feb 2024 00:00:01.000 +0000", "x".to_string()).unwrap();
    assert!(assembler.push_entry(a).is_none());
    assert_eq!(assembler.push_entry(b).unwrap().message, "a");
    assert_eq!(assembler.finish().unwrap().message, "b");
}

#[test]
fn crlf_first_line_drops_carriage_return() {
    let e = LogEntry::new("one\r\ntwo".to_string(), raw("2024-01-15T10:00:00.000Z [abc] x").date, "s".to_string());
    assert_eq!(e.one_line_message, "one");
    assert_eq!(e.lines_count, 2);
}

#[test]
fn full_date_is_computed_once() {
    let mut e = raw("2024-01-15T10:00:00.123Z [authd] hello");
    assert!(e.date_full.is_none());
    assert_eq!(e.date_full(), "Mon Jan 15 10:00:00 2024");
    assert_eq!(e.date_full.as_deref(), Some("Mon Jan 15 10:00:00 2024"));
    assert_eq!(e.date_full(), "Mon Jan 15 10:00:00 2024");
}

#[test]
fn append_adds_a_line() {
    let mut e = raw("2024-01-15T10:00:00.123Z [authd] First");
    e.append("Second LINE");
    assert_eq!(e.message, "First\nSecond LINE");
    assert_eq!(e.lines_count, 2);
    assert_eq!(e.one_line_message, "First");
    assert_eq!(e.lower_case_message, "first\nsecond line");
    e.append("");
    assert_eq!(e.lines_count, 3);
}

#[test]
fn same_line_parses_to_same_fields() {
    let line = "2024-03-01T23:59:59.999Z [db] Query TOOK long";
    let a = raw(line);
    let b = raw(line);
    assert_eq!(a.date_time, b.date_time);
    assert_eq!(a.date_time, "23:59:59.999");
    assert_eq!(a.one_line_message, b.one_line_message);
    assert_eq!(a.lines_count, b.lines_count);
    assert_eq!(a.lower_case_message, b.lower_case_message);
    assert_eq!(a.lower_case_message, "query took long");
}

#[test]
fn source_identity_is_by_hash() {
    let a = Source::new("alpha".to_string());
    let b = Source::new("alpha".to_string());
    let c = Source::new("beta".to_string());
    assert_eq!(a.hash, b.hash);
    assert_ne!(a.hash, c.hash);
    assert_eq!(a, b);
    assert_ne!(a, c);
    assert_eq!(a.clone().hash, a.hash);
}
