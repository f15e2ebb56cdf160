use controller_link::bmi160::{sensor_word, sensor_words};

#[test]
fn sensor_word_is_little_endian_signed() {
    assert_eq!(sensor_word(0x34, 0x12), 0x1234);
    assert_eq!(sensor_word(0xFF, 0xFF), -1);
    assert_eq!(sensor_word(0x00, 0x80), i16::MIN);
    assert_eq!(sensor_word(0xFF, 0x7F), i16::MAX);
}

#[test]
fn sensor_words_pairs_bytes() {
    let raw = [0x01, 0x00, 0xFE, 0xFF, 0x00, 0x01];
    assert_eq!(sensor_words(&raw), vec![1, -2, 256]);
    assert_eq!(sensor_words(&[]), Vec::<i16>::new());
}
