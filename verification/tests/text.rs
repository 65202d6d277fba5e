//! Numbers, prefixes and white space.

use v_m_io::hexa::is_hex;
use v_m_io::text::{
    byte_len, chars_of, has_char, has_prefix, push_dec, push_dec_signed, same_bytes, same_text,
    space, text_of, trim,
};

#[test]
fn numbers_are_written_in_decimal() {
    for n in [0, 7, 10, 99, 100, 1234567890, u64::MAX] {
        let mut out = "n = ".to_string();
        push_dec(&mut out, n);
        assert_eq!(format!("n = {n}"), out);
    }
    for n in [0, -1, 10, -10, i64::MAX, i64::MIN] {
        let mut out = String::new();
        push_dec_signed(&mut out, n);
        assert_eq!(format!("{n}"), out);
    }
}

#[test]
fn white_space_is_that_of_unicode() {
    for c in '\0'..=char::MAX {
        assert_eq!(c.is_whitespace(), space(c));
    }
}

#[test]
fn hex_digits_are_those_of_ascii() {
    for c in '\0'..=char::MAX {
        assert_eq!(c.is_ascii_hexdigit(), is_hex(c));
    }
}

#[test]
fn trimming() {
    for s in ["", " ", "a", " a b\t", "\u{3000}x\n\n", "é ", "\u{200b}x"] {
        let trimmed = trim(&chars_of(s));
        assert_eq!(s.trim(), text_of(&trimmed));
    }
}

#[test]
fn prefixes_and_equality() {
    let chars = chars_of("héllo");
    assert!(has_prefix(&chars, &chars_of("")));
    assert!(has_prefix(&chars, &chars_of("hé")));
    assert!(!has_prefix(&chars, &chars_of("he")));
    assert!(!has_prefix(&chars, &chars_of("héllo!")));
    assert!(has_char("héllo", 'é'));
    assert!(!has_char("héllo", 'e'));
    assert!(same_text("héllo", "héllo"));
    assert!(!same_text("héllo", "hello"));
    assert!(same_bytes(b"ab", b"ab"));
    assert!(!same_bytes(b"ab", b"abc"));
    assert_eq!(6, byte_len("héllo"));
}
