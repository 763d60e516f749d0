use whitespace_sifter::character::{
    get_char_len, get_char_metadata, Character, CARRIAGE_RETURN, LINE_FEED,
};

#[test]
fn char_len_follows_the_first_byte() {
    assert_eq!(get_char_len(0x00), 1);
    assert_eq!(get_char_len(b'a'), 1);
    assert_eq!(get_char_len(0x7F), 1);
    assert_eq!(get_char_len(0x80), 2);
    assert_eq!(get_char_len(0xBF), 2);
    assert_eq!(get_char_len(0xC0), 2);
    assert_eq!(get_char_len(0xDF), 2);
    assert_eq!(get_char_len(0xE0), 3);
    assert_eq!(get_char_len(0xEF), 3);
    assert_eq!(get_char_len(0xF0), 4);
    assert_eq!(get_char_len(0xFF), 4);
}

#[test]
fn char_len_is_the_length_of_the_encoding() {
    for c in ['a', '\u{e9}', '\u{20ac}', '\u{1f680}'] {
        let mut buf = [0u8; 4];
        let bytes = c.encode_utf8(&mut buf).as_bytes();
        assert_eq!(get_char_len(bytes[0]), bytes.len());
    }
}

#[test]
fn break_bytes() {
    assert_eq!(LINE_FEED, b'\n');
    assert_eq!(CARRIAGE_RETURN, b'\r');
}

#[test]
fn the_five_whitespace_bytes() {
    assert_eq!(get_char_metadata(b' '), Character::NormalWhitespace);
    assert_eq!(get_char_metadata(b'\t'), Character::NormalWhitespace);
    assert_eq!(get_char_metadata(0x0C), Character::NormalWhitespace);
    assert_eq!(get_char_metadata(b'\r'), Character::CarriageReturn);
    assert_eq!(get_char_metadata(b'\n'), Character::LineFeed);
}

#[test]
fn whitespace_is_what_std_calls_ascii_whitespace() {
    for b in 0u8..=0x7F {
        let whitespace = matches!(
            get_char_metadata(b),
            Character::NormalWhitespace | Character::CarriageReturn | Character::LineFeed
        );
        assert_eq!(whitespace, b.is_ascii_whitespace());
    }
}

#[test]
fn other_bytes_below_0x80_are_single_bytes() {
    assert_eq!(get_char_metadata(b'a'), Character::SingleByte);
    assert_eq!(get_char_metadata(0x00), Character::SingleByte);
    assert_eq!(get_char_metadata(0x0B), Character::SingleByte);
    assert_eq!(get_char_metadata(0x7F), Character::SingleByte);
}

#[test]
fn bytes_from_0x80_start_multi_byte_characters() {
    assert_eq!(get_char_metadata(0xC3), Character::MultiByte { len: 2 });
    assert_eq!(get_char_metadata(0xE2), Character::MultiByte { len: 3 });
    assert_eq!(get_char_metadata(0xF0), Character::MultiByte { len: 4 });
    for b in 0x80u8..=0xFF {
        assert_eq!(
            get_char_metadata(b),
            Character::MultiByte {
                len: get_char_len(b)
            }
        );
    }
}
