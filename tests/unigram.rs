use akaza::unigram::{homograph_hack, prepare_word_counts, score_bounds_hold, score_hack, try_copy_cost, UnigramError, WordCounts};

fn counts(pairs: &[(&str, u32)]) -> WordCounts {
    let mut m = WordCounts::new();
    for (w, c) in pairs {
        m.insert(w, *c);
    }
    m
}

#[test]
fn insert_overwrites() {
    let mut m = counts(&[("a/a", 1), ("b/b", 2)]);
    m.insert("a/a", 7);
    assert_eq!(m.len(), 2);
    assert_eq!(m.get("a/a"), Some(7));
    assert_eq!(m.get("b/b"), Some(2));
    assert_eq!(m.get("c/c"), None);
    assert!(m.contains_key("b/b"));
    assert!(!m.contains_key("c/c"));
}

#[test]
fn copy_cost_only_when_target_missing() {
    let mut m = counts(&[("x", 5)]);
    try_copy_cost("x", "y", &mut m);
    assert_eq!(m.get("y"), Some(5));
    let mut m = counts(&[("x", 5), ("y", 3)]);
    try_copy_cost("x", "y", &mut m);
    assert_eq!(m.get("y"), Some(3));
    let mut m = counts(&[("y", 3)]);
    try_copy_cost("x", "z", &mut m);
    assert_eq!(m.len(), 1);
}

#[test]
fn homograph_both_ways() {
    let mut m = counts(&[("日本/にほん", 100)]);
    homograph_hack(&mut m);
    assert_eq!(m.get("日本/にっぽん"), Some(100));
    let mut m = counts(&[("日本/にっぽん", 40)]);
    homograph_hack(&mut m);
    assert_eq!(m.get("日本/にほん"), Some(40));
    let mut m = counts(&[("日本/にっぽん", 40), ("日本/にほん", 100)]);
    homograph_hack(&mut m);
    assert_eq!(m.get("日本/にほん"), Some(100));
    assert_eq!(m.get("日本/にっぽん"), Some(40));
}

#[test]
fn score_hack_raises_today_and_important() {
    let mut m = counts(&[("今日/きょう", 10), ("卿/きょう", 30), ("大事/だいじ", 50), ("大字/だいじ", 20)]);
    score_hack(&mut m);
    assert_eq!(m.get("今日/きょう"), Some(31));
    assert_eq!(m.get("大事/だいじ"), Some(50));
    assert_eq!(m.get("卿/きょう"), Some(30));
}

#[test]
fn score_hack_stops_at_missing_pair() {
    let mut m = counts(&[("今日/きょう", 10), ("大事/だいじ", 5), ("大字/だいじ", 20)]);
    score_hack(&mut m);
    assert_eq!(m.get("今日/きょう"), Some(10));
    assert_eq!(m.get("大事/だいじ"), Some(5));
}

#[test]
fn prepare_applies_both() {
    let mut m = counts(&[("日本/にほん", 9), ("今日/きょう", 1), ("卿/きょう", 1)]);
    assert_eq!(prepare_word_counts(&mut m), Ok(()));
    assert_eq!(m.get("日本/にっぽん"), Some(9));
    assert_eq!(m.get("今日/きょう"), Some(2));
    assert_eq!(m.len(), 4);
    let (w, c) = m.entry(0);
    assert_eq!(m.get(w), Some(c));
    let _ = UnigramError::TooManyWords;
}

#[test]
fn score_bounds_only_where_raised() {
    let m = counts(&[("卿/きょう", u32::MAX), ("大字/だいじ", u32::MAX)]);
    assert!(score_bounds_hold(&m));
    let mut m2 = counts(&[("卿/きょう", u32::MAX), ("大事/だいじ", 1), ("大字/だいじ", 5)]);
    score_hack(&mut m2);
    assert_eq!(m2.get("大事/だいじ"), Some(1));
    let m = counts(&[("今日/きょう", 1), ("卿/きょう", u32::MAX)]);
    assert!(!score_bounds_hold(&m));
    let m = counts(&[("今日/きょう", 1), ("卿/きょう", 2), ("大事/だいじ", 1), ("大字/だいじ", u32::MAX)]);
    assert!(!score_bounds_hold(&m));
    let m = counts(&[("今日/きょう", 1), ("卿/きょう", 2), ("大字/だいじ", u32::MAX)]);
    assert!(score_bounds_hold(&m));
}
