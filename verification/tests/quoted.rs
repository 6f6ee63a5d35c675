use csexpr::decode::{parse, ErrorKind};
use csexpr::types::Sexp;

fn atom(text: &str) -> Sexp {
    Sexp::from(text)
}

fn list(items: Vec<Sexp>) -> Sexp {
    Sexp::list(items)
}

/// Asserts that the input is refused for the given reason, at the given
/// offset.
fn assert_refused(input: &[u8], kind: ErrorKind, offset: usize) {
    let error = parse(input).unwrap_err();
    let seen = String::from_utf8_lossy(input).into_owned();

    assert_eq!(error.kind(), kind, "parsing {seen}");
    assert_eq!(error.offset(), offset, "parsing {seen}");
}

#[test]
fn reads_a_quoted_string() {
    assert_eq!(
        parse(br#""hello world""#).unwrap(),
        atom("hello world")
    );
    assert_eq!(parse(br#""""#).unwrap(), atom(""));
}

#[test]
fn reads_the_escapes_a_quoted_string_names_by_letter() {
    let expected = Sexp::atom(&[0x07, 0x08, 0x09, 0x0a, 0x0b, 0x0c, 0x0d]);

    assert_eq!(parse(br#""\a\b\t\n\v\f\r""#).unwrap(), expected);
}

#[test]
fn reads_the_escapes_a_quoted_string_names_by_character() {
    assert_eq!(parse(br#""\"\'\?\\""#).unwrap(), Sexp::atom(br#""'?\"#));
}

#[test]
fn reads_an_escape_that_names_an_octet_in_octal() {
    assert_eq!(parse(br#""\101""#).unwrap(), atom("A"));
    assert_eq!(parse(br#""\000""#).unwrap(), Sexp::atom(&[0x00]));
    assert_eq!(parse(br#""\377""#).unwrap(), Sexp::atom(&[0xff]));
}

#[test]
fn reads_an_escape_that_names_an_octet_in_hexadecimal() {
    assert_eq!(parse(br#""\x41""#).unwrap(), atom("A"));
    assert_eq!(parse(br#""\x00\xFF""#).unwrap(), Sexp::atom(&[0x00, 0xff]));
}

#[test]
fn reads_an_escape_that_continues_a_line() {
    assert_eq!(parse(b"\"a\\\nb\"").unwrap(), atom("ab"));
    assert_eq!(parse(b"\"a\\\rb\"").unwrap(), atom("ab"));
    assert_eq!(parse(b"\"a\\\r\nb\"").unwrap(), atom("ab"));
    assert_eq!(parse(b"\"a\\\n\rb\"").unwrap(), atom("ab"));
}

#[test]
fn refuses_an_escape_that_is_not_defined() {
    assert_refused(br#""\q""#, ErrorKind::InvalidEscape, 1);
    assert_refused(br#""\18""#, ErrorKind::InvalidEscape, 1);
    assert_refused(br#""\xg0""#, ErrorKind::InvalidEscape, 1);
}

#[test]
fn refuses_an_octal_escape_past_what_an_octet_holds() {
    assert_refused(br#""\400""#, ErrorKind::InvalidEscape, 1);
    assert_refused(br#""\777""#, ErrorKind::InvalidEscape, 1);
}

#[test]
fn refuses_an_escape_that_is_cut_short() {
    assert_refused(br#""\x4""#, ErrorKind::InvalidEscape, 1);
    assert_refused(br#""\10""#, ErrorKind::InvalidEscape, 1);
    assert_refused(b"\"\\", ErrorKind::UnexpectedEnd, 2);
}

#[test]
fn refuses_an_octet_that_cannot_stand_in_a_quoted_string() {
    assert_refused(b"\"a\nb\"", ErrorKind::UnexpectedOctet, 2);
    assert_refused(b"\"\x00\"", ErrorKind::UnexpectedOctet, 1);
    assert_refused(b"\"\xff\"", ErrorKind::UnexpectedOctet, 1);
}

#[test]
fn refuses_a_quoted_string_that_does_not_close() {
    assert_refused(br#""abc"#, ErrorKind::UnexpectedEnd, 4);
}
