use csexpr::decode::{parse, ErrorKind, Parser};
use csexpr::types::Sexp;

fn atom(text: &str) -> Sexp {
    Sexp::from(text)
}

fn list(items: Vec<Sexp>) -> Sexp {
    Sexp::list(items)
}

/// Asserts that the input is refused for the given reason, at the given
/// offset.
fn assert_refused(input: &[u8], kind: ErrorKind, offset: usize) {
    let error = parse(input).unwrap_err();
    let seen = String::from_utf8_lossy(input).into_owned();

    assert_eq!(error.kind(), kind, "parsing {seen}");
    assert_eq!(error.offset(), offset, "parsing {seen}");
}

// Verbatim (§4.1)

#[test]
fn reads_a_verbatim_octet_string() {
    assert_eq!(parse(b"4:data").unwrap(), atom("data"));
}

#[test]
fn reads_a_zero_length_verbatim_octet_string() {
    assert_eq!(parse(b"0:").unwrap(), atom(""));
}

#[test]
fn reads_octets_of_every_value_verbatim() {
    let octets: Vec<u8> = (0..=255).collect();
    let mut input = b"256:".to_vec();

    input.extend_from_slice(&octets);

    assert_eq!(parse(&input).unwrap(), Sexp::atom(&octets));
}

#[test]
fn reads_octets_that_resemble_syntax_verbatim() {
    assert_eq!(parse(b"5:(a b)").unwrap(), atom("(a b)"));
    assert_eq!(parse(b"2:3:").unwrap(), atom("3:"));
}

#[test]
fn refuses_a_verbatim_octet_string_that_is_cut_short() {
    assert_refused(b"4:dat", ErrorKind::UnexpectedEnd, 5);
    assert_refused(b"4:", ErrorKind::UnexpectedEnd, 2);
}

#[test]
fn refuses_a_length_that_overstates_what_follows() {
    // Nothing is taken on the strength of the length, so a length far past
    // the end costs no memory.
    assert_refused(b"999999999999:a", ErrorKind::UnexpectedEnd, 14);
}

// Lengths (§7)

#[test]
fn reads_a_length_that_is_a_single_zero() {
    assert_eq!(parse(b"0:").unwrap(), atom(""));
}

#[test]
fn reads_a_length_of_more_than_one_digit() {
    let data = vec![b'x'; 100];
    let mut input = b"100:".to_vec();

    input.extend_from_slice(&data);

    assert_eq!(parse(&input).unwrap(), Sexp::atom(&data));
}

#[test]
fn refuses_a_length_with_a_leading_zero() {
    assert_refused(b"04:data", ErrorKind::LengthLeadingZero, 0);
    assert_refused(b"(1:a 01:b)", ErrorKind::LengthLeadingZero, 5);
}

#[test]
fn refuses_a_length_too_large_to_represent() {
    let input = format!("{}0:", usize::MAX);

    assert_refused(input.as_bytes(), ErrorKind::LengthOverflow, 0);
}

#[test]
fn refuses_a_length_followed_by_no_octet_string() {
    assert_refused(b"4", ErrorKind::UnexpectedEnd, 1);
    assert_refused(b"4x", ErrorKind::UnexpectedOctet, 1);
}

#[test]
fn reads_a_length_before_a_quoted_hexadecimal_or_base_64_string() {
    assert_eq!(parse(br#"3"abc""#).unwrap(), atom("abc"));
    assert_eq!(parse(b"3#616263#").unwrap(), atom("abc"));
    assert_eq!(parse(b"3|YWJj|").unwrap(), atom("abc"));
}

#[test]
fn refuses_a_length_that_disagrees_with_what_it_counts() {
    assert_refused(br#"2"abc""#, ErrorKind::LengthMismatch, 0);
    assert_refused(b"2#616263#", ErrorKind::LengthMismatch, 0);
    assert_refused(b"2|YWJj|", ErrorKind::LengthMismatch, 0);
}

#[test]
fn refuses_a_length_where_the_parser_allows_none() {
    let parser = Parser::new().allow_lengths(false);

    for input in [br#"3"abc""#.as_slice(), b"3#616263#", b"3|YWJj|"] {
        let error = parser.parse(input).unwrap_err();

        assert_eq!(
            error.kind(),
            ErrorKind::LengthNotAllowed,
            "parsing {input:?}"
        );
        assert_eq!(error.offset(), 0);
    }

    assert_eq!(parser.parse(b"3:abc").unwrap(), atom("abc"));
}

// Tokens (§4.3)

#[test]
fn reads_a_token() {
    assert_eq!(parse(b"issuer").unwrap(), atom("issuer"));
    assert_eq!(parse(b"text/plain").unwrap(), atom("text/plain"));
    assert_eq!(parse(b"-.a_:*+=1").unwrap(), atom("-.a_:*+=1"));
}

#[test]
fn reads_a_token_up_to_what_cannot_be_in_one() {
    assert_eq!(parse(b"(ab cd)").unwrap().get(0), Some(&atom("ab")));
    assert_eq!(parse(b"(ab)").unwrap().get(0), Some(&atom("ab")));
}

// Quoted strings (§4.2)

// Hexadecimal (§4.4)

#[test]
fn reads_a_hexadecimal_octet_string() {
    assert_eq!(parse(b"#616263#").unwrap(), atom("abc"));
    assert_eq!(parse(b"#00FF#").unwrap(), Sexp::atom(&[0x00, 0xff]));
    assert_eq!(parse(b"##").unwrap(), atom(""));
}

#[test]
fn reads_hexadecimal_in_either_case() {
    assert_eq!(parse(b"#abcdef#").unwrap(), parse(b"#ABCDEF#").unwrap());
}

#[test]
fn reads_whitespace_inside_a_hexadecimal_octet_string() {
    assert_eq!(parse(b"#61 62\n63#").unwrap(), atom("abc"));
    assert_eq!(parse(b"# #").unwrap(), atom(""));
}

#[test]
fn refuses_hexadecimal_that_is_not_hexadecimal() {
    assert_refused(b"#6g#", ErrorKind::InvalidHexDigit, 2);
    assert_refused(b"#61", ErrorKind::UnexpectedEnd, 3);
}

#[test]
fn refuses_an_odd_number_of_hexadecimal_digits() {
    assert_refused(b"#616#", ErrorKind::OddHexDigits, 0);
    assert_refused(b"(1:a #f#)", ErrorKind::OddHexDigits, 5);
}

#[test]
fn refuses_hexadecimal_where_the_parser_allows_none() {
    let parser = Parser::new().allow_hexadecimal(false);
    let error = parser.parse(b"#616263#").unwrap_err();

    assert_eq!(error.kind(), ErrorKind::HexadecimalNotAllowed);
    assert_eq!(error.offset(), 0);
    assert_eq!(parser.parse(b"|YWJj|").unwrap(), atom("abc"));
}

// Base 64 (§4.5)

#[test]
fn reads_a_base_64_octet_string() {
    assert_eq!(parse(b"|YWJj|").unwrap(), atom("abc"));
    assert_eq!(parse(b"|Zg==|").unwrap(), atom("f"));
    assert_eq!(parse(b"||").unwrap(), atom(""));
}

#[test]
fn reads_whitespace_inside_a_base_64_octet_string() {
    assert_eq!(parse(b"|YW Jj|").unwrap(), atom("abc"));
    assert_eq!(parse(b"|\nZg==\n|").unwrap(), atom("f"));
}

#[test]
fn refuses_base_64_that_is_not_base_64() {
    assert_refused(b"|YW*j|", ErrorKind::InvalidBase64, 3);
    assert_refused(b"|YWJj", ErrorKind::UnexpectedEnd, 5);
}

#[test]
fn refuses_base_64_that_ends_in_the_middle_of_a_group() {
    assert_refused(b"|Y|", ErrorKind::InvalidBase64, 1);
    assert_refused(b"|YWJja|", ErrorKind::InvalidBase64, 5);
}

#[test]
fn refuses_base_64_whose_last_character_carries_bits_it_should_not() {
    assert_refused(b"|Zh==|", ErrorKind::InvalidBase64, 2);
}

#[test]
fn refuses_base_64_where_the_parser_allows_none() {
    let parser = Parser::new().allow_base64(false);
    let error = parser.parse(b"(1:a|YWJj|)").unwrap_err();

    assert_eq!(error.kind(), ErrorKind::Base64NotAllowed);
    assert_eq!(error.offset(), 4);
    assert_eq!(parser.parse(b"#616263#").unwrap(), atom("abc"));
}

#[test]
fn refusing_base_64_octet_strings_leaves_the_braced_form_alone() {
    let parser = Parser::new().allow_base64(false);

    assert_eq!(parser.parse(b"{KCk=}").unwrap(), list(vec![]));
}

// Forms together

#[test]
fn reads_forms_mixed_within_one_list() {
    let expected = crate::list(vec![atom("a"), atom("b c"), Sexp::atom(&[0xff]), atom("d"), atom("")]);

    assert_eq!(parse(br#"(a "b c" #ff# 1:d ||)"#).unwrap(), expected);
}

#[test]
fn reads_one_octet_string_from_every_form_that_can_hold_it() {
    let expected = atom("abc");

    assert_eq!(parse(b"3:abc").unwrap(), expected);
    assert_eq!(parse(b"abc").unwrap(), expected);
    assert_eq!(parse(br#""abc""#).unwrap(), expected);
    assert_eq!(parse(b"#616263#").unwrap(), expected);
    assert_eq!(parse(b"|YWJj|").unwrap(), expected);
}

// Octet strings the parser was told to refuse

#[test]
fn refuses_an_advanced_form_where_only_the_canonical_one_is_read() {
    let parser = Parser::canonical();

    for input in [b"issuer".as_slice(), br#""abc""#, b"#616263#", b"|YWJj|"] {
        let error = parser.parse(input).unwrap_err();

        assert_eq!(
            error.kind(),
            ErrorKind::AdvancedNotAllowed,
            "parsing {input:?}"
        );
        assert_eq!(error.offset(), 0);
    }

    assert_eq!(parser.parse(b"3:abc").unwrap(), atom("abc"));
}

#[test]
fn refuses_an_advanced_form_that_a_length_begins_at_the_length() {
    let error = Parser::canonical().parse(b"3#616263#").unwrap_err();

    assert_eq!(error.kind(), ErrorKind::AdvancedNotAllowed);
    assert_eq!(error.offset(), 0);
}

#[test]
fn refuses_a_zero_length_octet_string_where_the_parser_allows_none() {
    let parser = Parser::new().allow_empty_atoms(false);

    for input in [b"0:".as_slice(), br#""""#, b"##", b"||"] {
        let error = parser.parse(input).unwrap_err();

        assert_eq!(
            error.kind(),
            ErrorKind::EmptyAtomNotAllowed,
            "parsing {input:?}"
        );
    }

    assert_eq!(parser.parse(b"1:a").unwrap(), atom("a"));
}

#[test]
fn refuses_a_zero_length_display_hint_where_the_parser_allows_none() {
    let parser = Parser::new().allow_empty_atoms(false);
    let error = parser.parse(b"[0:]1:a").unwrap_err();

    assert_eq!(error.kind(), ErrorKind::EmptyAtomNotAllowed);
    assert_eq!(error.offset(), 1);
}

#[test]
fn refuses_an_octet_string_longer_than_the_parser_allows() {
    let parser = Parser::new().max_atom_len(3);
    let error = parser.parse(b"4:abcd").unwrap_err();

    assert_eq!(parser.parse(b"3:abc").unwrap(), atom("abc"));
    assert_eq!(error.kind(), ErrorKind::AtomTooLong);
    assert_eq!(error.offset(), 0);
}

#[test]
fn bounds_the_length_of_every_form_an_octet_string_takes() {
    let parser = Parser::new().max_atom_len(2);

    for input in [
        b"3:abc".as_slice(),
        br#""abc""#,
        b"abc",
        b"#616263#",
        b"|YWJj|",
    ] {
        let error = parser.parse(input).unwrap_err();

        assert_eq!(error.kind(), ErrorKind::AtomTooLong, "parsing {input:?}");
    }
}

#[test]
fn bounds_the_length_of_a_display_hint_of_its_own() {
    let parser = Parser::new().max_atom_len(3);
    let error = parser.parse(b"[4:hint]1:a").unwrap_err();

    assert_eq!(error.kind(), ErrorKind::AtomTooLong);
    assert_eq!(error.offset(), 1);
}
