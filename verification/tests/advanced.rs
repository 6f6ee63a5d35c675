use csexpr::encode::advanced::{is_text, to_string, to_vec};
use csexpr::types::{Atom, Sexp};

/// A nesting deeper than any stack the tests may assume.
const DEEP: usize = 100_000;

/// The seven control characters that have a named escape, in the order of
/// their codes: `\a \b \t \n \v \f \r`.
const ESCAPED: [u8; 7] = [0x07, 0x08, 0x09, 0x0a, 0x0b, 0x0c, 0x0d];

fn text(text: &str) -> Sexp {
    Sexp::from(text)
}

fn list(items: Vec<Sexp>) -> Sexp {
    Sexp::list(items)
}

/// Builds `depth` nested lists around one atom, without recursing.
fn nested(depth: usize) -> Sexp {
    let mut sexp = text("data");

    for _ in 0..depth {
        sexp = list(vec![sexp]);
    }

    sexp
}

/// Drops an S-expression without recursing, by lifting every list's
/// elements out before the list that held them is dropped.
fn dismantle(sexp: Sexp) {
    let mut stack = vec![sexp];

    while let Some(node) = stack.pop() {
        if let Some(items) = node.into_list() {
            stack.extend(items);
        }
    }
}

/// Returns the advanced representation of one octet string alone.
fn atom(octets: &[u8]) -> String {
    to_string(&Sexp::atom(octets))
}

// to_string, octet strings as tokens

#[test]
fn to_string_writes_a_qualifying_octet_string_as_a_token() {
    assert_eq!(atom(b"issuer"), "issuer");
    assert_eq!(atom(b"text/plain"), "text/plain");
    assert_eq!(atom(b"a1"), "a1");
    assert_eq!(atom(b"-.foo_:*+="), "-.foo_:*+=");
}

#[test]
fn to_string_writes_no_length_before_a_token() {
    assert!(!atom(b"issuer").starts_with(|c: char| c.is_ascii_digit()));
}

#[test]
fn to_string_quotes_an_octet_string_that_begins_with_a_digit() {
    assert_eq!(atom(b"3abc"), r#""3abc""#);
    assert_eq!(atom(b"1"), r#""1""#);
}

// to_string, octet strings as quoted strings

#[test]
fn to_string_writes_text_as_a_quoted_string() {
    assert_eq!(atom(b"hello world"), r#""hello world""#);
    assert_eq!(atom(b"a(b"), r#""a(b""#);
}

#[test]
fn to_string_writes_a_zero_length_octet_string_as_two_quotes() {
    assert_eq!(atom(b""), r#""""#);
}

#[test]
fn to_string_escapes_the_quote_and_the_backslash() {
    assert_eq!(atom(br#"a"b"#), r#""a\"b""#);
    assert_eq!(atom(br"a\b"), r#""a\\b""#);
}

#[test]
fn to_string_escapes_the_seven_named_control_characters() {
    assert_eq!(atom(&ESCAPED), r#""\a\b\t\n\v\f\r""#);
}

#[test]
fn to_string_writes_no_length_before_a_quoted_string() {
    assert!(atom(b"hello world").starts_with('"'));
}

// to_string, octet strings in hexadecimal

#[test]
fn to_string_writes_octets_that_are_not_text_in_hexadecimal() {
    assert_eq!(atom(&[0xff, 0x00]), "#ff00#");
    assert_eq!(atom(&[0x7f]), "#7f#");
    assert_eq!(atom(b"text\x80"), "#7465787480#");
}

#[test]
fn to_string_writes_two_hexadecimal_digits_for_every_octet() {
    let encoded = atom(&[0x00, 0x01, 0x0f, 0x10, 0xff]);

    assert_eq!(encoded, "#00010f10ff#");
    assert_eq!(encoded.len(), 2 + 2 * 5);
}

#[test]
fn to_string_writes_no_length_before_a_hexadecimal_string() {
    assert!(atom(&[0xff]).starts_with('#'));
}

#[test]
fn to_string_never_writes_a_verbatim_or_base_64_octet_string() {
    for octets in [b"data".as_slice(), b"a b", &[0xff, 0x00]] {
        let encoded = atom(octets);

        assert!(!encoded.contains(':'));
        assert!(!encoded.contains('|'));
    }
}

// to_string, display hints

#[test]
fn to_string_writes_a_display_hint_in_brackets_before_the_data() {
    let hinted = Atom::new(b"bob").with_hint(b"text/plain");

    assert_eq!(to_string(&Sexp::from(hinted)), "[text/plain]bob");
}

#[test]
fn to_string_chooses_the_form_of_a_hint_by_its_own_octets() {
    let hinted = Atom::new(b"bob").with_hint(&[0xff]);

    assert_eq!(to_string(&Sexp::from(hinted)), "[#ff#]bob");
}

#[test]
fn to_string_writes_a_zero_length_display_hint() {
    let hinted = Atom::new(b"bob").with_hint(b"");

    assert_eq!(to_string(&Sexp::from(hinted)), r#"[""]bob"#);
}

#[test]
fn to_string_puts_no_space_between_a_hint_and_its_data() {
    let hinted = Atom::new(b"bob").with_hint(b"hint");

    assert_eq!(to_string(&Sexp::from(hinted)), "[hint]bob");
}

// to_string, lists

#[test]
fn to_string_writes_a_list_in_parentheses() {
    assert_eq!(to_string(&list(vec![text("issuer"), text("bob")])), "(issuer bob)");
}

#[test]
fn to_string_writes_the_empty_list() {
    assert_eq!(to_string(&list(vec![])), "()");
}

#[test]
fn to_string_separates_elements_with_one_space() {
    assert_eq!(to_string(&list(vec![text("a"), text("b"), text("c")])), "(a b c)");
}

#[test]
fn to_string_puts_no_space_inside_the_parentheses() {
    let encoded = to_string(&list(vec![text("a")]));

    assert_eq!(encoded, "(a)");
    assert!(!encoded.contains("( "));
    assert!(!encoded.contains(" )"));
}

#[test]
fn to_string_writes_nested_lists() {
    let sexp = list(vec![list(vec![]), list(vec![text("a"), list(vec![text("b")])])]);

    assert_eq!(to_string(&sexp), "(() (a (b)))");
}

#[test]
fn to_string_writes_only_ascii() {
    let sexp = list(vec![text("a b"), Sexp::atom(&[0xff]), text("c")]);

    assert!(to_string(&sexp).is_ascii());
}

#[test]
fn advanced_to_string_does_not_recurse() {
    let deep = nested(DEEP);

    assert_eq!(to_string(&deep).len(), 2 * DEEP + "data".len());

    dismantle(deep);
}

// Sexp::to_string

#[test]
fn display_writes_what_to_string_writes() {
    let subjects = [
        text("data"),
        Sexp::atom(&[0xff]),
        Sexp::from(Atom::new(b"bob").with_hint(b"hint")),
        list(vec![text("a"), list(vec![text("b")])]),
        list(vec![]),
    ];

    for subject in subjects {
        assert_eq!(subject.to_string(), to_string(&subject));
    }
}

// to_vec

#[test]
fn advanced_to_vec_is_to_string_as_octets() {
    let sexp = list(vec![text("a b"), Sexp::atom(&[0xff])]);

    assert_eq!(to_vec(&sexp), to_string(&sexp).into_bytes());
}

#[test]
fn advanced_to_vec_writes_deep_nesting() {
    let deep = nested(DEEP);

    assert_eq!(to_vec(&deep).len(), 2 * DEEP + "data".len());

    dismantle(deep);
}

// is_text

#[test]
fn is_text_admits_printable_ascii_and_the_seven_escapes() {
    for octet in 0..=u8::MAX {
        let printable = (0x20..=0x7e).contains(&octet);
        let escaped = (0x07..=0x0d).contains(&octet);

        assert_eq!(is_text(octet), printable || escaped, "octet {octet:#04x}");
    }
}

#[test]
fn to_string_writes_only_printable_ascii() {
    let octets: Vec<u8> = (0..=255).collect();
    let sexp = list(vec![
        Sexp::atom(&octets),
        Sexp::from(Atom::new(b"\x07\tx\"\\").with_hint(b"a b")),
        list(vec![]),
    ]);

    assert!(to_string(&sexp).bytes().all(|c| (0x20..=0x7e).contains(&c)));
}

#[test]
fn advanced_pieces_join_to_what_to_string_writes() {
    let subjects = [
        text("data"),
        Sexp::atom(&[0xff, 0x00]),
        Sexp::from(Atom::new(b"bob").with_hint(b"hint")),
        list(vec![text("a"), list(vec![text("b"), list(vec![])])]),
        nested(50),
    ];

    for subject in subjects {
        let mut pieces = csexpr::encode::advanced::pieces(&subject);
        let mut joined = Vec::new();

        while let Some(piece) = pieces.next() {
            assert!(!piece.is_empty());
            joined.extend_from_slice(&piece);
        }

        assert_eq!(joined, to_string(&subject).into_bytes());
    }
}
