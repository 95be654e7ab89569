use akaza::kana::KanaConverter;

#[test]
fn test_hira2kata() {
    let converter = KanaConverter::default();
    assert_eq!(converter.hira2kata("いうお"), "イウオ".to_string())
}

#[test]
fn hira2kata_keeps_other_characters() {
    let converter = KanaConverter::default();
    assert_eq!(converter.hira2kata("abcきょう、ー漢"), "abcキョウ、ー漢".to_string());
}

#[test]
fn hira2kata_empty() {
    let converter = KanaConverter::default();
    assert_eq!(converter.hira2kata(""), "".to_string());
}

#[test]
fn hira2kata_small_and_rare_kana() {
    let converter = KanaConverter::default();
    assert_eq!(converter.hira2kata("ゔぁゐゑゝゞゕゖゎ"), "ヴァヰヱヽヾヵヶヮ".to_string());
}
