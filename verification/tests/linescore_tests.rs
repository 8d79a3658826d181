use pwconv::linescore::{escape, parse, scan, split_unescaped, unescape};
use pwconv::record::{Entropy, Record};

fn entropy(x: f64) -> Entropy {
    Entropy {
        bits: x.to_bits(),
        in_range: x.is_finite() && x >= 0.0 && x <= 1024.0,
        shown: format!("{}", x),
        fixed: format!("{:.2}", x),
    }
}

fn new_record(label: &str, score: u8, x: f64, crack_time: &str) -> Result<Record, String> {
    Record::new(label.to_string(), score, entropy(x), crack_time.to_string())
}

/// Reads linescore text, turning each entropy field into a number as `f64::from_str` does.
fn read(input: &str) -> Result<Vec<Record>, String> {
    let s = scan(input);
    let values: Vec<Option<Entropy>> =
        s.lines.iter().map(|l| l.entropy_text.parse::<f64>().ok().map(entropy)).collect();
    parse(&s, &values)
}

#[test]
fn parses_basic_line() {
    let records = read("alice|2|34.50|3 hours\n").unwrap();
    assert_eq!(records.len(), 1);
    assert_eq!(records[0].label, "alice");
    assert_eq!(records[0].score, 2);
    assert_eq!(f64::from_bits(records[0].entropy_bits.bits), 34.50);
    assert_eq!(records[0].crack_time, "3 hours");
}

#[test]
fn skips_blank_lines() {
    let input = "alice|2|34.50|3 hours\n\nbob|4|78.20|centuries\n";
    let records = read(input).unwrap();
    assert_eq!(records.len(), 2);
}

#[test]
fn linescore_round_trip() {
    let records = vec![
        new_record("alice", 2, 34.56, "3 hours").unwrap(),
        new_record("bob|weird\\name", 4, 78.23, "centuries").unwrap(),
        new_record("carol", 0, 8.10, "line1\nline2").unwrap(),
    ];
    let text = pwconv::linescore::write(&records);
    let parsed = read(&text).unwrap();
    assert_eq!(records, parsed);
}

#[test]
fn rejects_wrong_field_count() {
    let err = read("alice|2|34.50\n").unwrap_err();
    assert!(err.contains("expected 4 fields"));
}

#[test]
fn rejects_invalid_score() {
    let err = read("alice|nine|34.50|3 hours\n").unwrap_err();
    assert!(err.contains("invalid score"));
}

#[test]
fn rejects_invalid_entropy() {
    let err = read("alice|2|not-a-number|3 hours\n").unwrap_err();
    assert!(err.contains("invalid entropy"));
}

#[test]
fn linescore_rejects_score_out_of_range() {
    let err = read("alice|5|34.50|3 hours\n").unwrap_err();
    assert!(err.contains("out of range"));
}

#[test]
fn escapes_pipe_and_backslash_in_write() {
    let records = vec![new_record("a|b\\c", 1, 10.0, "d|e").unwrap()];
    let text = pwconv::linescore::write(&records);
    assert_eq!(text, "a\\|b\\\\c|1|10.00|d\\|e\n");
}

#[test]
fn messages_name_the_line() {
    assert_eq!(read("\n\na|1|2\n").unwrap_err(), "line 3: expected 4 fields, found 3");
    assert_eq!(read("a|x|1|t\n").unwrap_err(), "line 1: invalid score 'x'");
    assert_eq!(read("ok|1|1.0|t\nb|1|zz|t\n").unwrap_err(), "line 2: invalid entropy 'zz'");
    assert_eq!(read("b|9|1.0|t\n").unwrap_err(), "line 1: score 9 out of range 0-4 for 'b'");
    assert_eq!(
        read("b|1|2000|t\n").unwrap_err(),
        "line 1: entropy_bits 2000 out of range 0-1024 for 'b'"
    );
}

#[test]
fn first_problem_in_order_wins() {
    // an entropy problem on line 1 comes before a field-count problem on line 2
    assert_eq!(read("a|1|bad|t\nb|1\n").unwrap_err(), "line 1: invalid entropy 'bad'");
    // on one line, the score is read before the entropy
    assert_eq!(read("a|q|bad|t\n").unwrap_err(), "line 1: invalid score 'q'");
    // a score that cannot be read comes before an entropy that cannot be read,
    // an entropy that cannot be read before a score out of range
    assert_eq!(read("a|7|bad|t\n").unwrap_err(), "line 1: invalid entropy 'bad'");
}

#[test]
fn score_text_follows_u8_from_str() {
    assert_eq!(read("a|+3|1|t\n").unwrap()[0].score, 3);
    assert_eq!(read("a|004|1|t\n").unwrap()[0].score, 4);
    assert_eq!(read("a|256|1|t\n").unwrap_err(), "line 1: invalid score '256'");
    assert_eq!(read("a|-0|1|t\n").unwrap_err(), "line 1: invalid score '-0'");
    assert_eq!(read("a| 1|1|t\n").unwrap_err(), "line 1: invalid score ' 1'");
    assert_eq!(read("a||1|t\n").unwrap_err(), "line 1: invalid score ''");
    assert_eq!(read("a|+|1|t\n").unwrap_err(), "line 1: invalid score '+'");
}

#[test]
fn lines_split_like_str_lines() {
    let records = read("a|1|1|x\r\nb|2|2|y\r\n   \t\nc|3|3|z").unwrap();
    assert_eq!(records.len(), 3);
    assert_eq!(records[0].crack_time, "x");
    assert_eq!(records[1].crack_time, "y");
    assert_eq!(records[2].crack_time, "z");
    // a carriage return not followed by a line break stays
    assert_eq!(read("a|1|1|x\r").unwrap()[0].crack_time, "x\r");
    assert!(read("").unwrap().is_empty());
    // unicode white space makes a line blank too
    assert!(read("\u{3000}\u{a0}\n").unwrap().is_empty());
}

#[test]
fn scan_keeps_entropy_text_as_written() {
    let s = scan("\nx\\y|1|1e2|t\n");
    assert!(s.failure.is_none());
    assert_eq!(s.lines.len(), 1);
    assert_eq!(s.lines[0].line, 2);
    assert_eq!(s.lines[0].label, "xy");
    assert_eq!(s.lines[0].entropy_text, "1e2");
}

#[test]
fn escape_and_unescape() {
    assert_eq!(escape("a\\b|c\nd"), "a\\\\b\\|c\\nd");
    assert_eq!(unescape("a\\\\b\\|c\\nd"), "a\\b|c\nd");
    assert_eq!(unescape("\\x"), "x");
    assert_eq!(unescape("end\\"), "end\\");
    let s = "tricky \\ | \n \\n |\\| done\\";
    assert_eq!(unescape(&escape(s)), s);
}

#[test]
fn split_keeps_escapes() {
    assert_eq!(split_unescaped("a\\|b|c\\\\|d"), vec!["a\\|b", "c\\\\", "d"]);
    assert_eq!(split_unescaped(""), vec![""]);
    assert_eq!(split_unescaped("|"), vec!["", ""]);
    assert_eq!(split_unescaped("x\\"), vec!["x\\"]);
}

#[test]
fn write_is_one_line_per_record() {
    assert_eq!(pwconv::linescore::write(&[]), "");
    let records = vec![
        new_record("a", 0, 0.0, "now").unwrap(),
        new_record("b", 4, 1024.0, "").unwrap(),
    ];
    assert_eq!(pwconv::linescore::write(&records), "a|0|0.00|now\nb|4|1024.00|\n");
}

#[test]
fn concatenated_texts_read_as_concatenated_records() {
    let a = "alice|2|34.50|3 hours\n\n";
    let b = "  \nbob|4|78.20|centuries";
    let mut both = read(a).unwrap();
    both.extend(read(b).unwrap());
    assert_eq!(read(&format!("{}{}", a, b)).unwrap(), both);
}

#[test]
fn split_of_joined_fields_gives_them_back() {
    let xs = ["a|b", "", "c\\d", "e\nf", "|\\|"];
    let line = xs.iter().map(|x| escape(x)).collect::<Vec<_>>().join("|");
    let fields = split_unescaped(&line);
    assert_eq!(fields, xs.iter().map(|x| escape(x)).collect::<Vec<_>>());
    assert_eq!(fields.iter().map(|f| unescape(f)).collect::<Vec<_>>(), xs.to_vec());
}
