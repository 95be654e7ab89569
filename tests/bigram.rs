use akaza::bigram::SystemBigramLMBuilder;

#[test]
fn bigram_key_layout() {
    let mut b = SystemBigramLMBuilder::default();
    b.add(1, 0x01020304, 2.5f32.to_bits());
    b.add(-1, 0, 0);
    assert_eq!(b.len(), 2);
    let mut expected = vec![1u8, 0, 0, 0, 4, 3, 2, 1];
    expected.extend(2.5f32.to_le_bytes());
    assert_eq!(b.key(0), &expected);
    assert_eq!(b.key(1), &vec![0xff, 0xff, 0xff, 0xff, 0, 0, 0, 0, 0, 0, 0, 0]);
}

#[test]
fn bigram_find_first_recorded() {
    let mut b = SystemBigramLMBuilder::default();
    assert_eq!(b.find(1, 2), None);
    b.add(1, 2, 1.5f32.to_bits());
    b.add(2, 1, 7);
    b.add(1, 2, 9);
    assert_eq!(b.find(1, 2), Some(1.5f32.to_bits()));
    assert_eq!(b.find(2, 1), Some(7));
    assert_eq!(b.find(2, 2), None);
    b.add(-5, 3, 0xdeadbeef);
    assert_eq!(b.find(-5, 3), Some(0xdeadbeef));
}

#[test]
fn bigram_bytes_end_to_end() {
    let mut b = SystemBigramLMBuilder::default();
    b.add(1, 2, 3);
    b.add(4, 5, 6);
    assert_eq!(
        b.to_bytes(),
        vec![1, 0, 0, 0, 2, 0, 0, 0, 3, 0, 0, 0, 4, 0, 0, 0, 5, 0, 0, 0, 6, 0, 0, 0]
    );
}
