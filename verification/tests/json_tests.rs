use pwconv::json::{escape, number_texts, parse, scan, JsonEvent, Number, Parser};
use pwconv::record::{Entropy, Record};

fn entropy(x: f64) -> Entropy {
    Entropy {
        bits: x.to_bits(),
        in_range: x.is_finite() && x >= 0.0 && x <= 1024.0,
        shown: format!("{}", x),
        fixed: format!("{:.2}", x),
    }
}

fn new_record(label: &str, score: u8, x: f64, crack_time: &str) -> Result<Record, String> {
    Record::new(label.to_string(), score, entropy(x), crack_time.to_string())
}

/// What a number token denotes: its `f64` value, the byte it converts to
/// with `as u8`, and whether the value is exactly that byte.
fn number(x: f64) -> Number {
    let as_score = x as u8;
    Number { as_score, exact: as_score as f64 == x, value: entropy(x) }
}

/// Reads a JSON document, turning each number token into a number as `f64::from_str` does.
fn read(input: &str) -> Result<Vec<Record>, String> {
    let s = scan(input);
    let numbers: Vec<Option<Number>> =
        number_texts(&s).iter().map(|t| t.parse::<f64>().ok().map(number)).collect();
    parse(&s, &numbers)
}

#[test]
fn parses_empty_array() {
    let records = read("[]").unwrap();
    assert!(records.is_empty());
}

#[test]
fn parses_basic_object() {
    let input = r#"[{"label": "alice", "score": 2, "entropy_bits": 34.50, "crack_time": "3 hours"}]"#;
    let records = read(input).unwrap();
    assert_eq!(records.len(), 1);
    assert_eq!(records[0].label, "alice");
    assert_eq!(records[0].score, 2);
    assert_eq!(f64::from_bits(records[0].entropy_bits.bits), 34.50);
    assert_eq!(records[0].crack_time, "3 hours");
}

#[test]
fn json_round_trip() {
    let records = vec![
        new_record("alice", 2, 34.56, "3 hours").unwrap(),
        new_record("bob \"the\" builder", 4, 78.23, "centuries").unwrap(),
        new_record("carol\\zero", 0, 8.10, "line1\nline2").unwrap(),
    ];
    let text = pwconv::json::write(&records);
    let parsed = read(&text).unwrap();
    assert_eq!(records, parsed);
}

#[test]
fn escapes_special_characters_in_write() {
    let records = vec![new_record("line\nbreak", 1, 10.0, "tab\there").unwrap()];
    let text = pwconv::json::write(&records);
    assert!(text.contains("line\\nbreak"));
    assert!(text.contains("tab\\there"));
}

#[test]
fn rejects_missing_field() {
    let input = r#"[{"label": "alice", "score": 2, "entropy_bits": 34.50}]"#;
    let err = read(input).unwrap_err();
    assert!(err.contains("missing"));
}

#[test]
fn rejects_unknown_field() {
    let input = r#"[{"label": "alice", "score": 2, "entropy_bits": 34.50, "crack_time": "3 hours", "extra": 1}]"#;
    let err = read(input).unwrap_err();
    assert!(err.contains("unknown field"));
}

#[test]
fn json_rejects_score_out_of_range() {
    let input = r#"[{"label": "alice", "score": 9, "entropy_bits": 34.50, "crack_time": "3 hours"}]"#;
    let err = read(input).unwrap_err();
    assert!(err.contains("out of range"));
}

#[test]
fn rejects_malformed_input() {
    let err = read(r#"[{"label": "alice""#).unwrap_err();
    assert!(!err.is_empty());
}

#[test]
fn write_has_the_documented_shape() {
    let records = vec![
        new_record("a", 2, 34.5, "3 hours").unwrap(),
        new_record("b", 4, 78.2, "centuries").unwrap(),
    ];
    assert_eq!(
        pwconv::json::write(&records),
        "[\n  {\"label\": \"a\", \"score\": 2, \"entropy_bits\": 34.50, \"crack_time\": \"3 hours\"},\n  {\"label\": \"b\", \"score\": 4, \"entropy_bits\": 78.20, \"crack_time\": \"centuries\"}\n]\n"
    );
    assert_eq!(pwconv::json::write(&[]), "[\n]\n");
    assert!(read(&pwconv::json::write(&[])).unwrap().is_empty());
}

#[test]
fn escape_covers_control_characters() {
    assert_eq!(escape("q\"b\\n\nt\tr\r"), "q\\\"b\\\\n\\nt\\tr\\r");
    assert_eq!(escape("\u{1}\u{1f}é"), "\\u0001\\u001fé");
}

#[test]
fn round_trip_with_control_and_unicode_characters() {
    let records = vec![new_record("\u{1}bell\u{7}", 3, 0.0, "ünïcödé \r / done").unwrap()];
    assert_eq!(read(&pwconv::json::write(&records)).unwrap(), records);
}

#[test]
fn string_escapes_are_decoded() {
    let input = r#"[{"label": "a\/b\u0041\u+042\ud800", "score": 1, "entropy_bits": 1, "crack_time": "t"}]"#;
    let records = read(input).unwrap();
    assert_eq!(records[0].label, "a/bAB?");
}

#[test]
fn string_errors() {
    assert_eq!(read(r#"[{"label": "\x"}]"#).unwrap_err(), "invalid escape 'Some(120)'");
    assert_eq!(read("[{\"label\": \"\\").unwrap_err(), "invalid escape 'None'");
    assert_eq!(read(r#"[{"label": "\u12"#).unwrap_err(), "truncated unicode escape");
    assert_eq!(read(r#"[{"label": "\u12zz"}]"#).unwrap_err(), "invalid unicode escape");
    assert_eq!(read(r#"[{"label": "\u-041"}]"#).unwrap_err(), "invalid unicode escape");
    assert_eq!(read("[{\"label\": \"\\u00éé\"}]").unwrap_err(), "invalid unicode escape");
    assert_eq!(read(r#"[{"label": "abc"#).unwrap_err(), "unterminated string");
}

#[test]
fn structure_errors() {
    assert_eq!(read("").unwrap_err(), "expected '[' at byte 0");
    assert_eq!(read("  x").unwrap_err(), "expected '[' at byte 2");
    assert_eq!(read("[x").unwrap_err(), "expected '{' at byte 1");
    assert_eq!(read("[{\"label\" \"a\"}]").unwrap_err(), "expected ':' at byte 10");
    assert_eq!(read("[{\"label\": \"a\" ]").unwrap_err(), "unexpected byte Some(93) in object");
    assert_eq!(read("[{\"label\": \"a\"").unwrap_err(), "unexpected byte None in object");
    assert_eq!(
        read(r#"[{"label": "a", "score": 1, "entropy_bits": 1, "crack_time": "t"} x"#).unwrap_err(),
        "unexpected byte Some(120) after object"
    );
    assert_eq!(read(r#"[{"other": 1}]"#).unwrap_err(), "unknown field 'other'");
}

#[test]
fn byte_offsets_count_utf8_bytes() {
    // "é" takes two bytes, so the colon is looked for at byte 7, not 6
    assert_eq!(read("[{\"é\" x").unwrap_err(), "expected ':' at byte 7");
    // a non-ASCII byte is shown by its first UTF-8 byte
    assert_eq!(read("[{\"label\": \"a\" é").unwrap_err(), "unexpected byte Some(195) in object");
}

#[test]
fn number_errors_and_missing_fields_in_order() {
    assert_eq!(read(r#"[{"score": 1x}]"#).unwrap_err(), "unexpected byte Some(120) in object");
    assert_eq!(read(r#"[{"score": --}]"#).unwrap_err(), "invalid number at byte 11");
    // a number that is not a number is reported before a later problem of structure
    assert_eq!(read(r#"[{"score": ., "zzz": 1}]"#).unwrap_err(), "invalid number at byte 11");
    assert_eq!(read(r#"[{"score": 1}]"#).unwrap_err(), "missing 'label'");
    assert_eq!(read(r#"[{"label": "a"}]"#).unwrap_err(), "missing 'score'");
    assert_eq!(read(r#"[{"label": "a", "score": 1}]"#).unwrap_err(), "missing 'entropy_bits'");
    assert_eq!(
        read(r#"[{"label": "a", "score": 1, "entropy_bits": 2}]"#).unwrap_err(),
        "missing 'crack_time'"
    );
}

#[test]
fn score_must_be_a_whole_number_from_0_to_4() {
    let one = |score: &str| {
        read(&format!(
            r#"[{{"label": "a", "score": {}, "entropy_bits": 1.00, "crack_time": "x"}}]"#,
            score
        ))
    };
    assert_eq!(one("-1").unwrap_err(), "score -1 out of range 0-4 for 'a'");
    assert_eq!(one("2.5").unwrap_err(), "score 2.5 out of range 0-4 for 'a'");
    assert_eq!(one("3.9").unwrap_err(), "score 3.9 out of range 0-4 for 'a'");
    assert_eq!(one("5").unwrap_err(), "score 5 out of range 0-4 for 'a'");
    assert_eq!(one("300").unwrap_err(), "score 255 out of range 0-4 for 'a'");
    assert_eq!(one("5.5").unwrap_err(), "score 5 out of range 0-4 for 'a'");
    assert_eq!(one("1e10").unwrap_err(), "score 255 out of range 0-4 for 'a'");
    assert_eq!(one("-0.5").unwrap_err(), "score -0.5 out of range 0-4 for 'a'");
    assert_eq!(one("4e0").unwrap()[0].score, 4);
    assert_eq!(one("4.0").unwrap()[0].score, 4);
    assert_eq!(one("0").unwrap()[0].score, 0);
}

#[test]
fn score_is_checked_before_entropy_in_json() {
    let input = r#"[{"label": "a", "score": 2.5, "entropy_bits": -1, "crack_time": "x"}]"#;
    assert_eq!(read(input).unwrap_err(), "score 2.5 out of range 0-4 for 'a'");
    let input = r#"[{"label": "a", "score": 2, "entropy_bits": -1, "crack_time": "x"}]"#;
    assert_eq!(read(input).unwrap_err(), "entropy_bits -1 out of range 0-1024 for 'a'");
}

#[test]
fn number_texts_lists_tokens_in_order() {
    let s = scan(r#"[{"score": 1, "entropy_bits": 2.5}, {"entropy_bits": -x"#);
    assert_eq!(number_texts(&s), vec!["1", "2.5", "-"]);
    assert!(s.failure.is_some());
}

#[test]
fn failed_expect_leaves_cursor_after_white_space() {
    let mut p = Parser::new(" \n x");
    assert_eq!(p.expect(b'[').unwrap_err(), "expected '[' at byte 3");
    assert_eq!(p.peek(), Some(b'x'));
    assert_eq!(p.pos, 3);
}

#[test]
fn later_fields_replace_earlier_ones() {
    let input = r#"[{"label": "a", "label": "b", "score": 1, "entropy_bits": 1, "crack_time": "t"}]"#;
    assert_eq!(read(input).unwrap()[0].label, "b");
}

#[test]
fn text_after_the_array_is_ignored() {
    assert!(read("[] trailing").unwrap().is_empty());
    assert_eq!(read("  [ ]").unwrap().len(), 0);
}

#[test]
fn parser_steps() {
    let mut p = Parser::new("  \"h\\u00e9\" x");
    assert_eq!(p.peek(), Some(b' '));
    p.skip_ws();
    assert_eq!(p.peek(), Some(b'"'));
    assert_eq!(p.parse_string().unwrap(), "h\u{e9}");
    assert_eq!(p.expect(b'y').unwrap_err(), "expected 'y' at byte 12");
    assert_eq!(p.peek(), Some(b'x'));
    assert!(p.expect(b'x').is_ok());
    assert_eq!(p.peek(), None);
}

#[test]
fn number_tokens_are_recorded_with_their_byte_offsets() {
    let s = scan(r#"[{"label": "é", "score":  -1.5e3 , "zz": 1}]"#);
    assert_eq!(s.failure.as_deref(), Some("unknown field 'zz'"));
    assert_eq!(s.events.len(), 1);
    match &s.events[0] {
        JsonEvent::Number { start, text } => {
            assert_eq!(*start, 27);
            assert_eq!(text, "-1.5e3");
        }
        _ => panic!("expected a number token"),
    }
    let mut p = Parser::new("  12,");
    assert_eq!(p.number_token(), (2, "12".to_string()));
    assert_eq!(p.peek(), Some(b','));
}
