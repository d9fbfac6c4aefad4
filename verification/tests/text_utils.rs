use embedded_cli::utils;

#[test]
fn char_pop_front() {
    let text = "abcd абв 佐佗佟𑿁 𑿆𑿌";
    for (i, ch) in text.char_indices() {
        let rest = &text.as_bytes()[i..];
        let (popped_ch, width) = utils::char_pop_front(rest).unwrap();
        assert_eq!(popped_ch, ch);
        assert_eq!(width, ch.len_utf8());
    }
    assert!(utils::char_pop_front(b"").is_none());
}

#[test]
fn char_encode() {
    let text = "abcd абв 佐佗佟𑿁 𑿆𑿌";
    for ch in text.chars() {
        let mut buf = [0u8; 4];
        assert_eq!(
            ch.encode_utf8(&mut buf).as_bytes(),
            utils::encode_utf8(ch).as_slice()
        );
    }
    assert!(utils::char_pop_front(b"").is_none());
}

#[test]
fn char_count_mixed() {
    for text in ["abcdef", "abcd абв 佐佗佟𑿁 𑿆𑿌", ""] {
        assert_eq!(utils::char_count(text.as_bytes()), text.chars().count());
    }
}

#[test]
fn char_byte_pos() {
    for text in ["abcdef", "abcd абв 佐佗佟𑿁 𑿆𑿌"] {
        for pos in 0..=text.chars().count() {
            let expected = text.char_indices().map(|(pos, _)| pos).nth(pos);
            assert_eq!(utils::char_byte_index(text.as_bytes(), pos), expected);
        }
    }
}

#[test]
fn trim_start_spaces() {
    for (input, expected) in [
        ("abc", "abc"),
        ("  abc", "abc"),
        ("abc  ", "abc  "),
        ("  abc   ", "abc   "),
        ("  abc def  ", "abc def  "),
        ("  abc   def  ", "abc   def  "),
        ("  abc dабвг佐  佗佟𑿁   𑿆𑿌  ", "abc dабвг佐  佗佟𑿁   𑿆𑿌  "),
    ] {
        assert_eq!(utils::trim_start(input.as_bytes()), expected.as_bytes());
    }
}

#[test]
fn common_prefix() {
    for (left, right) in [
        ("abcdef", "abcdef"),
        ("abcdef", "abc"),
        ("abcdef", "abc ghf"),
        ("abcdef", ""),
        ("", ""),
        ("абв 佐佗佟𑿁", "абв 佐佗佟𑿁"),
        ("абв 佐佗佟𑿁𑿆𑿌", "абв 佐佗佟𑿁"),
        ("абв 佐佗佟𑿁 𑿆𑿌", "абв 佐佗𑿁佟"),
    ] {
        let expected = left
            .char_indices()
            .zip(right.char_indices())
            .find(|((_, a1), (_, a2))| a1 != a2)
            .map(|((pos, _), _)| pos)
            .unwrap_or(right.len().min(left.len()));

        assert_eq!(
            utils::common_prefix_len(left.as_bytes(), right.as_bytes()),
            expected
        );
        assert_eq!(
            utils::common_prefix_len(right.as_bytes(), left.as_bytes()),
            expected
        );
    }
}

#[test]
fn utf8_validation() {
    assert!(utils::is_valid_utf8("abc абв 𑿆".as_bytes()));
    assert!(utils::is_valid_utf8(b""));
    assert!(!utils::is_valid_utf8(b"\xC0\x80"));
    assert!(!utils::is_valid_utf8(b"\xED\xA0\x80"));
    assert!(!utils::is_valid_utf8(b"ab\x85"));
}
