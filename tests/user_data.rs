use akaza::user_data::{format_count_line, parse_count_line, UserData};

#[test]
fn learn_repeated_equals_record() {
    let mut a = UserData::new();
    for _ in 0..100 {
        a.learn("私", "は");
    }
    let mut b = UserData::new();
    b.record("私", "は", 100);
    assert_eq!(a.unigram_count("は"), 100);
    assert_eq!(b.unigram_count("は"), 100);
    assert_eq!(a.bigram_count("私", "は"), 100);
    assert_eq!(b.bigram_count("私", "は"), 100);
    assert_eq!(a.bigram_count("は", "私"), 0);
    assert_eq!(a.unigram_count("私"), 0);
}

#[test]
fn record_saturates() {
    let mut a = UserData::new();
    a.record("a", "b", u32::MAX);
    a.learn("a", "b");
    assert_eq!(a.bigram_count("a", "b"), u32::MAX);
}

#[test]
fn count_line_format() {
    assert_eq!(format_count_line("私", 0), "0\t私");
    assert_eq!(format_count_line("私\tは", 1234567890), "1234567890\t私\tは");
    assert_eq!(format_count_line("x", u32::MAX), "4294967295\tx");
}

#[test]
fn count_line_parse() {
    assert_eq!(parse_count_line("12\t私\tは"), Some((12, "私\tは".to_string())));
    assert_eq!(parse_count_line("12\t"), Some((12, "".to_string())));
    assert_eq!(parse_count_line("x\t私"), None);
    assert_eq!(parse_count_line("12"), None);
    assert_eq!(parse_count_line("4294967296\ta"), None);
}

#[test]
fn lines_reload() {
    let mut a = UserData::new();
    a.record("私", "は", 3);
    a.learn("今日", "は");
    let mut b = UserData::new();
    for l in a.unigram_lines() {
        assert!(b.load_unigram_line(&l));
    }
    for l in a.bigram_lines() {
        assert!(b.load_bigram_line(&l));
    }
    assert_eq!(b.unigram_count("は"), 4);
    assert_eq!(b.bigram_count("私", "は"), 3);
    assert_eq!(b.bigram_count("今日", "は"), 1);
    assert!(!b.load_unigram_line("bad"));
    assert_eq!(b.unigram_count("は"), 4);
}
