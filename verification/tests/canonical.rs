use csexpr::encode::canonical::{decimal_len, encoded_len, to_vec, write_decimal};
use csexpr::types::{Atom, Sexp, DEFAULT_HINT};

const OCTETS: &[u8] = &[0x00, 0xff, 0x1b, 0x7f];

/// A nesting deeper than any stack the tests may assume.
const DEEP: usize = 100_000;

fn atom(text: &str) -> Sexp {
    Sexp::from(text)
}

fn list(items: Vec<Sexp>) -> Sexp {
    Sexp::list(items)
}

/// Builds `depth` nested lists around one atom, without recursing.
fn nested(depth: usize) -> Sexp {
    let mut sexp = atom("data");

    for _ in 0..depth {
        sexp = list(vec![sexp]);
    }

    sexp
}

/// Drops an S-expression without recursing, by lifting every list's
/// elements out before the list that held them is dropped.
fn dismantle(sexp: Sexp) {
    let mut stack = vec![sexp];

    while let Some(node) = stack.pop() {
        if let Some(items) = node.into_list() {
            stack.extend(items);
        }
    }
}

/// Every shape the representation has to distinguish.
fn corpus() -> Vec<Sexp> {
    vec![
        atom(""),
        atom("data"),
        Sexp::atom(OCTETS),
        Sexp::atom(&vec![b'x'; 1000]),
        Sexp::from(Atom::new(b"data").with_hint(b"hint")),
        Sexp::from(Atom::new(b"").with_hint(b"")),
        Sexp::from(Atom::new(OCTETS).with_hint(OCTETS)),
        list(vec![]),
        list(vec![atom("a"), atom("b")]),
        list(vec![list(vec![]), list(vec![list(vec![atom("a")])])]),
        nested(20),
    ]
}

// to_vec

#[test]
fn to_vec_writes_an_octet_string_verbatim() {
    assert_eq!(to_vec(&atom("data")), b"4:data");
}

#[test]
fn to_vec_writes_a_zero_length_octet_string() {
    assert_eq!(to_vec(&atom("")), b"0:");
}

#[test]
fn to_vec_writes_arbitrary_octets_unaltered() {
    let expected = [b"4:".as_slice(), OCTETS].concat();

    assert_eq!(to_vec(&Sexp::atom(OCTETS)), expected);
}

#[test]
fn to_vec_writes_octets_that_resemble_syntax_unaltered() {
    let data: &[u8] = b"()[]{}|#\"3:abc";

    assert_eq!(
        to_vec(&Sexp::atom(data)),
        [b"14:".as_slice(), data].concat()
    );
}

#[test]
fn to_vec_writes_a_display_hint_before_the_data() {
    let hinted = Atom::new(b"data").with_hint(b"hint");

    assert_eq!(to_vec(&Sexp::from(hinted)), b"[4:hint]4:data");
}

#[test]
fn to_vec_writes_a_zero_length_display_hint() {
    let hinted = Atom::new(b"data").with_hint(b"");

    assert_eq!(to_vec(&Sexp::from(hinted)), b"[0:]4:data");
}

#[test]
fn to_vec_writes_a_list_in_parentheses() {
    assert_eq!(to_vec(&list(vec![atom("issuer"), atom("bob")])), b"(6:issuer3:bob)");
}

#[test]
fn to_vec_writes_the_empty_list() {
    assert_eq!(to_vec(&list(vec![])), b"()");
}

#[test]
fn to_vec_separates_elements_with_nothing() {
    let encoded = to_vec(&list(vec![atom("a"), atom("b"), atom("c")]));

    assert_eq!(encoded, b"(1:a1:b1:c)");
    assert!(!encoded.iter().any(u8::is_ascii_whitespace));
}

#[test]
fn to_vec_writes_nested_lists() {
    let sexp = list(vec![list(vec![]), list(vec![atom("a"), list(vec![atom("b")])])]);

    assert_eq!(to_vec(&sexp), b"(()(1:a(1:b)))");
}

#[test]
fn to_vec_writes_lengths_without_a_leading_zero() {
    let sexp = Sexp::atom(&vec![b'x'; 100]);

    assert!(to_vec(&sexp).starts_with(b"100:"));
}

#[test]
fn to_vec_writes_lengths_of_more_than_one_digit() {
    for len in [9usize, 10, 11, 99, 100, 1000] {
        let encoded = to_vec(&Sexp::atom(&vec![b'x'; len]));
        let expected = format!("{len}:");

        assert!(encoded.starts_with(expected.as_bytes()));
        assert_eq!(encoded.len(), expected.len() + len);
    }
}

#[test]
fn to_vec_distinguishes_an_absent_hint_from_an_explicit_default() {
    let hinted = Atom::new(b"data").with_hint(&DEFAULT_HINT);

    assert_ne!(to_vec(&Sexp::from(hinted)), to_vec(&atom("data")));
}

#[test]
fn to_vec_distinguishes_an_atom_from_a_list_holding_it() {
    assert_ne!(to_vec(&atom("a")), to_vec(&list(vec![atom("a")])));
}

#[test]
fn to_vec_agrees_with_equality() {
    for left in corpus() {
        for right in corpus() {
            assert_eq!(left == right, to_vec(&left) == to_vec(&right));
        }
    }
}

#[test]
fn to_vec_does_not_recurse() {
    let deep = nested(DEEP);

    assert_eq!(to_vec(&deep).len(), 2 * DEEP + "4:data".len());

    dismantle(deep);
}

// encoded_len

#[test]
fn canonical_encoded_len_matches_what_is_written() {
    for sexp in corpus() {
        assert_eq!(encoded_len(&sexp), to_vec(&sexp).len());
    }
}

#[test]
fn encoded_len_counts_the_empty_list_and_the_empty_atom() {
    assert_eq!(encoded_len(&list(vec![])), 2);
    assert_eq!(encoded_len(&atom("")), 2);
}

#[test]
fn encoded_len_counts_the_display_hint() {
    let hinted = Sexp::from(Atom::new(b"data").with_hint(b"hint"));

    assert_eq!(encoded_len(&hinted), encoded_len(&atom("data")) + 8);
}

#[test]
fn encoded_len_does_not_recurse() {
    let deep = nested(DEEP);

    assert_eq!(encoded_len(&deep), 2 * DEEP + "4:data".len());

    dismantle(deep);
}

// decimal_len, write_decimal

#[test]
fn decimal_len_counts_the_digits_of_a_length() {
    assert_eq!(decimal_len(0), 1);
    assert_eq!(decimal_len(9), 1);
    assert_eq!(decimal_len(10), 2);
    assert_eq!(decimal_len(99), 2);
    assert_eq!(decimal_len(100), 3);
    assert_eq!(decimal_len(usize::MAX), usize::MAX.to_string().len());
}

#[test]
fn write_decimal_agrees_with_decimal_len() {
    for value in [0usize, 1, 9, 10, 255, 1000, usize::MAX] {
        let mut out = Vec::new();

        write_decimal(value, &mut out);

        assert_eq!(out, value.to_string().as_bytes());
        assert_eq!(out.len(), decimal_len(value));
    }
}

#[test]
fn canonical_pieces_join_to_what_to_vec_writes() {
    for sexp in corpus() {
        let mut pieces = csexpr::encode::canonical::pieces(&sexp);
        let mut joined = Vec::new();

        while let Some(piece) = pieces.next() {
            assert!(!piece.is_empty());
            joined.extend_from_slice(&piece);
        }

        assert_eq!(joined, to_vec(&sexp));
        assert!(pieces.next().is_none());
    }
}

#[test]
fn pieces_hand_out_an_octet_string_with_its_hint_at_once() {
    let sexp = list(vec![Sexp::from(Atom::new(b"data").with_hint(b"hint")), atom("b")]);
    let mut pieces = csexpr::encode::canonical::pieces(&sexp);
    let mut seen = Vec::new();

    while let Some(piece) = pieces.next() {
        seen.push(piece);
    }

    assert_eq!(
        seen,
        vec![b"(".to_vec(), b"[4:hint]4:data".to_vec(), b"1:b".to_vec(), b")".to_vec()]
    );
}
