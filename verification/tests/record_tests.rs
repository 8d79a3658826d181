use pwconv::record::{check_unique_labels, Entropy, Record};

const MAX_ENTROPY_BITS: f64 = 1024.0;

fn entropy(x: f64) -> Entropy {
    Entropy {
        bits: x.to_bits(),
        in_range: x.is_finite() && x >= 0.0 && x <= MAX_ENTROPY_BITS,
        shown: format!("{}", x),
        fixed: format!("{:.2}", x),
    }
}

fn new_record(label: String, score: u8, x: f64, crack_time: String) -> Result<Record, String> {
    Record::new(label, score, entropy(x), crack_time)
}

#[test]
fn accepts_zero_entropy() {
    assert!(new_record("a".to_string(), 0, 0.0, "instant".to_string()).is_ok());
}

#[test]
fn accepts_max_entropy() {
    assert!(new_record("a".to_string(), 4, MAX_ENTROPY_BITS, "eons".to_string()).is_ok());
}

#[test]
fn rejects_negative_entropy() {
    let err = new_record("a".to_string(), 2, -1.0, "3 hours".to_string()).unwrap_err();
    assert!(err.contains("out of range"));
}

#[test]
fn rejects_entropy_above_max() {
    let err = new_record("a".to_string(), 2, MAX_ENTROPY_BITS + 0.1, "3 hours".to_string()).unwrap_err();
    assert!(err.contains("out of range"));
}

#[test]
fn rejects_non_finite_entropy() {
    let err = new_record("a".to_string(), 2, f64::NAN, "3 hours".to_string()).unwrap_err();
    assert!(err.contains("out of range"));
    let err = new_record("a".to_string(), 2, f64::INFINITY, "3 hours".to_string()).unwrap_err();
    assert!(err.contains("out of range"));
}

#[test]
fn accepts_unique_labels() {
    let records = vec![
        new_record("alice".to_string(), 2, 34.5, "3 hours".to_string()).unwrap(),
        new_record("bob".to_string(), 4, 78.2, "centuries".to_string()).unwrap(),
    ];
    assert!(check_unique_labels(&records).is_ok());
}

#[test]
fn rejects_duplicate_labels() {
    let records = vec![
        new_record("alice".to_string(), 2, 34.5, "3 hours".to_string()).unwrap(),
        new_record("alice".to_string(), 1, 10.0, "instant".to_string()).unwrap(),
    ];
    let err = check_unique_labels(&records).unwrap_err();
    assert!(err.contains("duplicate label"));
}

#[test]
fn score_message_is_exact() {
    let err = new_record("bob".to_string(), 7, 1.0, "x".to_string()).unwrap_err();
    assert_eq!(err, "score 7 out of range 0-4 for 'bob'");
}

#[test]
fn entropy_message_is_exact() {
    let err = new_record("bob".to_string(), 1, -1.5, "x".to_string()).unwrap_err();
    assert_eq!(err, "entropy_bits -1.5 out of range 0-1024 for 'bob'");
    let err = new_record("bob".to_string(), 1, f64::NAN, "x".to_string()).unwrap_err();
    assert_eq!(err, "entropy_bits NaN out of range 0-1024 for 'bob'");
}

#[test]
fn score_is_checked_before_entropy() {
    let err = new_record("c".to_string(), 5, -3.0, "x".to_string()).unwrap_err();
    assert_eq!(err, "score 5 out of range 0-4 for 'c'");
}

#[test]
fn new_keeps_the_fields() {
    let r = new_record("carol".to_string(), 3, 12.25, "days".to_string()).unwrap();
    assert_eq!(r.label, "carol");
    assert_eq!(r.score, 3);
    assert_eq!(f64::from_bits(r.entropy_bits.bits), 12.25);
    assert_eq!(r.crack_time, "days");
}

#[test]
fn duplicate_message_names_first_repeated_label() {
    let records = vec![
        new_record("a".to_string(), 1, 1.0, "x".to_string()).unwrap(),
        new_record("b".to_string(), 1, 1.0, "x".to_string()).unwrap(),
        new_record("c".to_string(), 1, 1.0, "x".to_string()).unwrap(),
        new_record("b".to_string(), 1, 1.0, "x".to_string()).unwrap(),
        new_record("a".to_string(), 1, 1.0, "x".to_string()).unwrap(),
    ];
    assert_eq!(check_unique_labels(&records).unwrap_err(), "duplicate label 'b'");
    assert!(check_unique_labels(&[]).is_ok());
}
