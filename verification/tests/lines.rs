use gha_ml_pipeline::dates::date_prefix;
use gha_ml_pipeline::fetch::{
    decimal_text, history_records, history_url, run, FetchError, RunError, HISTORY_HOURS,
};
use gha_ml_pipeline::lines::{
    content_lines, line_is_blank, split_lines, strip_mark, trim_line_feeds,
};
use gha_ml_pipeline::validate::{duplicate_keys, validate_no_duplicates_jsonl};

#[test]
fn split_lines_cuts_at_line_feeds() {
    let none: Vec<&[u8]> = Vec::new();
    assert_eq!(split_lines(b""), none);
    assert_eq!(split_lines(b"a"), vec![&b"a"[..]]);
    assert_eq!(split_lines(b"a\n"), vec![&b"a"[..]]);
    assert_eq!(split_lines(b"a\nb"), vec![&b"a"[..], &b"b"[..]]);
    assert_eq!(split_lines(b"a\nb\n"), vec![&b"a"[..], &b"b"[..]]);
    assert_eq!(split_lines(b"\n"), vec![&b""[..]]);
    assert_eq!(split_lines(b"a\n\nb\n"), vec![&b"a"[..], &b""[..], &b"b"[..]]);
    assert_eq!(split_lines(b"\n\n"), vec![&b""[..], &b""[..]]);
    assert_eq!(split_lines(b"a\r\nb"), vec![&b"a\r"[..], &b"b"[..]]);
}

#[test]
fn trim_line_feeds_cuts_the_end_only() {
    assert_eq!(trim_line_feeds(b""), b"");
    assert_eq!(trim_line_feeds(b"\n\n\n"), b"");
    assert_eq!(trim_line_feeds(b"a\n"), b"a");
    assert_eq!(trim_line_feeds(b"\na\nb\n\n"), b"\na\nb");
    assert_eq!(trim_line_feeds(b"a \n"), b"a ");
    assert_eq!(trim_line_feeds(b"ab"), b"ab");
}

#[test]
fn date_prefix_takes_ten_characters() {
    assert_eq!(date_prefix("2025-01-01T00:00:00Z"), Some("2025-01-01".to_string()));
    assert_eq!(date_prefix("2025-01-01"), Some("2025-01-01".to_string()));
    assert_eq!(date_prefix("2025-01-0"), None);
    assert_eq!(date_prefix(""), None);
    assert_eq!(date_prefix("t1"), None);
    assert_eq!(date_prefix("ééééééééééé"), Some("éééééééééé".to_string()));
    assert_eq!(date_prefix("ééééééééé"), None);
}

#[test]
fn decimal_text_writes_numbers() {
    assert_eq!(decimal_text(0), "0");
    assert_eq!(decimal_text(7), "7");
    assert_eq!(decimal_text(10), "10");
    assert_eq!(decimal_text(24), "24");
    assert_eq!(decimal_text(1905), "1905");
    assert_eq!(decimal_text(u32::MAX), "4294967295");
}

#[test]
fn history_url_names_the_hours() {
    assert_eq!(HISTORY_HOURS, 24);
    assert_eq!(
        history_url(HISTORY_HOURS),
        "https://api.coinybubble.com/v1/history/5min?hours=24"
    );
    assert_eq!(history_url(1), "https://api.coinybubble.com/v1/history/5min?hours=1");
}

#[test]
fn history_records_wants_an_array() {
    assert!(matches!(history_records(b"{\"a\":1}"), Err(FetchError::NotArray)));
    assert!(matches!(history_records(b"\"text\""), Err(FetchError::NotArray)));
    assert!(matches!(history_records(b"[1,"), Err(FetchError::Malformed(_))));
    assert!(matches!(history_records(b""), Err(FetchError::Malformed(_))));
    assert_eq!(history_records(b"[]").unwrap().len(), 0);
    let records = history_records(b"[{\"a\":1},2,\"x\"]").unwrap();
    assert_eq!(records.len(), 3);
    assert_eq!(records[0]["a"], 1);
    assert_eq!(records[1], 2);
    assert_eq!(records[2], "x");
}

#[test]
fn run_passes_on_what_the_answer_lacks() {
    assert!(matches!(run(b"{}", b""), Err(RunError::Fetch(FetchError::NotArray))));
    assert!(matches!(run(b"nope", b""), Err(RunError::Fetch(FetchError::Malformed(_)))));
    let added = run(b"[]", b"{\"interval_end_time\":\"t1\"}\n").unwrap();
    assert_eq!(added.count, 0);
    assert!(added.bytes.is_empty());
}

#[test]
fn repeated_key_fails_validation() {
    let log = b"{\"interval_end_time\":\"t1\",\"v\":1}\n{\"interval_end_time\":\"t1\",\"v\":2}\n";
    let found = validate_no_duplicates_jsonl(log, "interval_end_time").unwrap_err();
    assert_eq!(found.keys, vec!["t1".to_string()]);

    let distinct = b"{\"interval_end_time\":\"t1\",\"v\":1}\n{\"interval_end_time\":\"t2\",\"v\":2}\n";
    assert!(validate_no_duplicates_jsonl(distinct, "interval_end_time").is_ok());
}

#[test]
fn validation_lists_each_repeated_key_once() {
    let log = b"{\"k\":\"a\"}\n{\"k\":\"b\"}\n{\"k\":\"c\"}\n{\"k\":\"b\"}\n{\"k\":\"a\"}\n{\"k\":\"b\"}\n{\"k\":\"a\"}\n";
    let found = validate_no_duplicates_jsonl(log, "k").unwrap_err();
    assert_eq!(found.keys, vec!["b".to_string(), "a".to_string()]);
    assert!(validate_no_duplicates_jsonl(log, "j").is_ok());
}

#[test]
fn validation_passes_over_what_has_no_key() {
    let log = b"junk\njunk\n{\"v\":1}\n{\"v\":1}\n{\"k\":1}\n{\"k\":1}\n\n\n{\"k\":\"a\"}\n";
    assert!(validate_no_duplicates_jsonl(log, "k").is_ok());
    assert!(validate_no_duplicates_jsonl(b"", "k").is_ok());
}

#[test]
fn duplicate_keys_lists_what_recurs() {
    let keys: Vec<Option<String>> =
        [Some("a"), None, Some("b"), Some("b"), None, Some("a"), Some("b"), Some("c")]
            .iter()
            .map(|k| k.map(|s| s.to_string()))
            .collect();
    assert_eq!(duplicate_keys(&keys), vec!["b".to_string(), "a".to_string()]);
    assert!(duplicate_keys(&keys[..3].to_vec()).is_empty());
    assert!(duplicate_keys(&Vec::new()).is_empty());
}

#[test]
fn blank_lines_hold_spaces_tabs_and_carriage_returns_only() {
    assert!(line_is_blank(b""));
    assert!(line_is_blank(b" \t\r  "));
    assert!(!line_is_blank(b" a "));
    assert!(!line_is_blank(b"\x0c"));
    assert!(!line_is_blank(b"{}"));
}

#[test]
fn content_lines_leaves_the_blank_lines_out() {
    let none: Vec<&[u8]> = Vec::new();
    assert_eq!(content_lines(b""), none);
    assert_eq!(content_lines(b"\n \n\t\r\n"), none);
    assert_eq!(content_lines(b"a\n\nb \r\n  \nc"), vec![&b"a"[..], &b"b \r"[..], &b"c"[..]]);
    assert_eq!(content_lines(b"a\nb\n"), split_lines(b"a\nb\n"));
}

#[test]
fn strip_mark_cuts_the_mark_at_the_head_only() {
    assert_eq!(strip_mark(b"\xEF\xBB\xBFabc"), b"abc");
    assert_eq!(strip_mark(b"\xEF\xBB\xBF"), b"");
    assert_eq!(strip_mark(b"abc"), b"abc");
    assert_eq!(strip_mark(b"\xEF\xBB"), b"\xEF\xBB");
    assert_eq!(strip_mark(b"a\xEF\xBB\xBF"), b"a\xEF\xBB\xBF");
    assert_eq!(strip_mark(b"\xEF\xBB\xBF\xEF\xBB\xBFx"), b"\xEF\xBB\xBFx");
    assert_eq!(strip_mark(b""), b"");
}
