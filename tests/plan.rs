use mtimer::{parse_line, parse_lines, ImportPair, ParsedLine, TimerError};

fn entry(line: &str) -> (String, u64) {
    match parse_line(line) {
        Ok(ParsedLine::Entry(pair)) => (pair.sound_path().to_string(), pair.time_delay()),
        other => panic!("expected an entry for {:?}, got {:?}", line, other),
    }
}

fn invalid(line: &str) {
    match parse_line(line) {
        Err(TimerError::InvalidParse { line: l }) => assert_eq!(l, line),
        other => panic!("expected a parse error for {:?}, got {:?}", line, other),
    }
}

#[test]
fn entry_with_delay() {
    assert_eq!(entry("default/start.wav: 5"), ("default/start.wav".to_string(), 5));
}

#[test]
fn entry_without_delay_defaults_to_one() {
    assert_eq!(entry("beep.wav"), ("beep.wav".to_string(), 1));
}

#[test]
fn entry_round_trip_of_large_delay() {
    assert_eq!(entry("a/b.wav: 18446744073709551615"), ("a/b.wav".to_string(), u64::MAX));
}

#[test]
fn entry_is_trimmed() {
    assert_eq!(entry("  go.wav:\t 12  "), ("go.wav".to_string(), 12));
    assert_eq!(entry("x.wav:+7"), ("x.wav".to_string(), 7));
    assert_eq!(entry("x.wav: 0"), ("x.wav".to_string(), 0));
}

#[test]
fn rejects_other_extension() {
    invalid("notawav.mp3: 2");
    invalid("notawav.mp3");
}

#[test]
fn rejects_bad_delay() {
    invalid("x.wav: abc");
    invalid("x.wav:");
    invalid("x.wav: -1");
    invalid("x.wav: +");
    invalid("x.wav: 18446744073709551616");
    invalid("x.wav: 1: 2");
    invalid("x.wav : 1");
}

#[test]
fn comment_and_blank() {
    assert!(matches!(parse_line("# comment"), Ok(ParsedLine::Comment)));
    assert!(matches!(parse_line("   # indented"), Ok(ParsedLine::Comment)));
    assert!(matches!(parse_line("#x.wav: 3"), Ok(ParsedLine::Comment)));
    assert!(matches!(parse_line(""), Ok(ParsedLine::Blank)));
    assert!(matches!(parse_line(" \t "), Ok(ParsedLine::Blank)));
}

#[test]
fn lines_keep_entry_order() {
    let lines: Vec<String> = vec![
        "# plan".to_string(),
        "one.wav: 3".to_string(),
        "".to_string(),
        "two.wav".to_string(),
        "  # note".to_string(),
        "three.wav: 0".to_string(),
    ];
    let pairs = parse_lines(&lines).unwrap();
    let got: Vec<(String, u64)> =
        pairs.iter().map(|p| (p.sound_path().to_string(), p.time_delay())).collect();
    assert_eq!(
        got,
        vec![("one.wav".to_string(), 3), ("two.wav".to_string(), 1), ("three.wav".to_string(), 0)]
    );
}

#[test]
fn lines_stop_at_first_bad_line() {
    let lines: Vec<String> = vec![
        "one.wav: 3".to_string(),
        "bad.mp3".to_string(),
        "x.wav: abc".to_string(),
    ];
    assert_eq!(parse_lines(&lines).unwrap_err(), TimerError::InvalidParse { line: "bad.mp3".to_string() });
}

#[test]
fn empty_plan_has_no_entries() {
    let lines: Vec<String> = vec!["# nothing".to_string(), "".to_string()];
    assert!(parse_lines(&lines).unwrap().is_empty());
}

#[test]
fn import_pair_new_keeps_values() {
    let pair = ImportPair::new("default/go.wav", 4);
    assert_eq!(pair.sound_path(), "default/go.wav");
    assert_eq!(pair.time_delay(), 4);
}
