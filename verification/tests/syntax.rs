use csexpr::syntax::{
    hex_value, is_token, is_token_start, is_whitespace, qualifies_as_token,
};

/// Every octet, so that a rule about all of them is tested on all of them.
fn all_octets() -> impl Iterator<Item = u8> {
    0..=u8::MAX
}

// is_token, is_token_start

#[test]
fn is_token_admits_letters_digits_and_the_eight_marks() {
    for octet in all_octets() {
        let expected = octet.is_ascii_alphanumeric() || b"-./_:*+=".contains(&octet);

        assert_eq!(is_token(octet), expected, "octet {octet:#04x}");
    }
}

#[test]
fn is_token_start_admits_what_is_token_admits_but_no_digit() {
    for octet in all_octets() {
        let expected = is_token(octet) && !octet.is_ascii_digit();

        assert_eq!(is_token_start(octet), expected, "octet {octet:#04x}");
    }
}

#[test]
fn is_token_rejects_the_syntax_characters() {
    for octet in *b"()[]{}|#\"\\ \t\n" {
        assert!(!is_token(octet), "octet {octet:#04x}");
    }
}

#[test]
fn is_token_rejects_octets_outside_ascii() {
    for octet in 0x80..=u8::MAX {
        assert!(!is_token(octet), "octet {octet:#04x}");
    }
}

// qualifies_as_token

#[test]
fn qualifies_as_token_accepts_letters_digits_and_marks() {
    assert!(qualifies_as_token(b"issuer"));
    assert!(qualifies_as_token(b"text/plain"));
    assert!(qualifies_as_token(b"a1"));
    assert!(qualifies_as_token(b"-.foo_:*+="));
}

#[test]
fn qualifies_as_token_accepts_one_octet() {
    assert!(qualifies_as_token(b"a"));
    assert!(qualifies_as_token(b"="));
}

#[test]
fn qualifies_as_token_rejects_nothing_at_all() {
    assert!(!qualifies_as_token(b""));
}

#[test]
fn qualifies_as_token_rejects_a_leading_digit() {
    assert!(!qualifies_as_token(b"1"));
    assert!(!qualifies_as_token(b"3abc"));
}

#[test]
fn qualifies_as_token_rejects_anything_else_anywhere() {
    assert!(!qualifies_as_token(b"a b"));
    assert!(!qualifies_as_token(b"a(b"));
    assert!(!qualifies_as_token(b"a\"b"));
    assert!(!qualifies_as_token(&[b'a', 0x00]));
    assert!(!qualifies_as_token(&[b'a', 0xff]));
}

// is_whitespace, hex_value

#[test]
fn is_whitespace_admits_the_six_whitespace_octets() {
    for octet in all_octets() {
        let expected = matches!(octet, b' ' | b'\t' | b'\n' | b'\r' | 0x0b | 0x0c);

        assert_eq!(is_whitespace(octet), expected, "octet {octet:#04x}");
    }
}

#[test]
fn hex_value_reads_digits_in_either_case() {
    for octet in all_octets() {
        let expected = (octet as char).to_digit(16).map(|value| value as u8);

        assert_eq!(hex_value(octet), expected, "octet {octet:#04x}");
    }
}
