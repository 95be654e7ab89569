use akaza::unigram::WordCounts;
use akaza::wfreq::{add_wfreq_line, add_wfreq_lines, parse_wfreq_fields, parse_wfreq_line};

#[test]
fn parse_line_trims() {
    assert_eq!(parse_wfreq_line("  私/わたし\t42  "), Some(("私/わたし".to_string(), 42)));
    assert_eq!(parse_wfreq_line("a\t+7\n"), Some(("a".to_string(), 7)));
}

#[test]
fn parse_fields_rejects() {
    assert_eq!(parse_wfreq_fields("no tab"), None);
    assert_eq!(parse_wfreq_fields("a\t"), None);
    assert_eq!(parse_wfreq_fields("a\t12x"), None);
    assert_eq!(parse_wfreq_fields("a\t4294967296"), None);
    assert_eq!(parse_wfreq_fields("a\t4294967295"), Some(("a".to_string(), u32::MAX)));
    assert_eq!(parse_wfreq_fields("a\tb\t3"), None);
    assert_eq!(parse_wfreq_fields("\t3"), Some(("".to_string(), 3)));
}

#[test]
fn add_line_threshold() {
    let mut m = WordCounts::new();
    assert!(add_wfreq_line(&mut m, "a\t17", 16));
    assert!(add_wfreq_line(&mut m, "b\t16", 16));
    assert!(!add_wfreq_line(&mut m, "c", 16));
    assert_eq!(m.get("a"), Some(17));
    assert_eq!(m.get("b"), None);
    assert_eq!(m.len(), 1);
}

#[test]
fn add_lines_stops_at_bad_line() {
    let mut m = WordCounts::new();
    let lines = vec!["a\t20".to_string(), " b\t30 ".to_string()];
    assert!(add_wfreq_lines(&mut m, &lines, 16));
    assert_eq!(m.get("b"), Some(30));
    let mut m = WordCounts::new();
    let lines = vec!["a\t20".to_string(), "oops".to_string(), "c\t40".to_string()];
    assert!(!add_wfreq_lines(&mut m, &lines, 16));
    assert_eq!(m.get("a"), Some(20));
    assert_eq!(m.get("c"), None);
}

#[test]
fn parse_line_trims_unicode_white_space() {
    assert_eq!(parse_wfreq_line("\u{3000}語\t5\u{a0}\u{2029}"), Some(("語".to_string(), 5)));
    assert_eq!(parse_wfreq_line("\u{200b}語\t5"), Some(("\u{200b}語".to_string(), 5)));
}
