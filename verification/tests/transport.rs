use csexpr::encode::canonical;
use csexpr::encode::transport::{encoded_len, to_string, to_vec};
use csexpr::types::{Atom, Sexp};

/// A nesting deeper than any stack the tests may assume.
const DEEP: usize = 100_000;

/// Canonical representations and the braced form each one takes.
const VECTORS: &[(&str, &str)] = &[
    ("()", "{KCk=}"),
    ("4:data", "{NDpkYXRh}"),
    ("(1:a)", "{KDE6YSk=}"),
    ("[4:hint]4:data", "{WzQ6aGludF00OmRhdGE=}"),
    ("(6:issuer3:bob)", "{KDY6aXNzdWVyMzpib2Ip}"),
];

fn atom(text: &str) -> Sexp {
    Sexp::from(text)
}

fn list(items: Vec<Sexp>) -> Sexp {
    Sexp::list(items)
}

/// The S-expression each vector encodes, in the order the vectors give.
fn subjects() -> Vec<Sexp> {
    vec![
        list(vec![]),
        atom("data"),
        list(vec![atom("a")]),
        Sexp::from(Atom::new(b"data").with_hint(b"hint")),
        list(vec![atom("issuer"), atom("bob")]),
    ]
}

/// Builds `depth` nested lists around one atom, without recursing.
fn nested(depth: usize) -> Sexp {
    let mut sexp = atom("data");

    for _ in 0..depth {
        sexp = list(vec![sexp]);
    }

    sexp
}

/// Drops an S-expression without recursing, by lifting every list's
/// elements out before the list that held them is dropped.
fn dismantle(sexp: Sexp) {
    let mut stack = vec![sexp];

    while let Some(node) = stack.pop() {
        if let Some(items) = node.into_list() {
            stack.extend(items);
        }
    }
}

// to_string

#[test]
fn to_string_wraps_the_canonical_representation() {
    for (vector, subject) in VECTORS.iter().zip(subjects()) {
        let (expected_canonical, expected) = vector;

        assert_eq!(canonical::to_vec(&subject), expected_canonical.as_bytes());
        assert_eq!(to_string(&subject), *expected);
    }
}

#[test]
fn to_string_surrounds_the_encoding_with_braces() {
    for subject in subjects() {
        let encoded = to_string(&subject);

        assert!(encoded.starts_with('{'));
        assert!(encoded.ends_with('}'));
    }
}

#[test]
fn to_string_emits_only_base_64_characters_and_braces() {
    let subject = Sexp::from(Atom::new(&[0x00, 0xff, 0x1b]).with_hint(&[0x7f]));
    let encoded = to_string(&subject);

    assert!(encoded.is_ascii());
    assert!(
        encoded[1..encoded.len() - 1]
            .bytes()
            .all(|c| c.is_ascii_alphanumeric() || matches!(c, b'+' | b'/' | b'='))
    );
}

#[test]
fn to_string_emits_no_whitespace() {
    let subject = Sexp::atom(&vec![b'x'; 300]);

    assert!(!to_string(&subject).bytes().any(|c| c.is_ascii_whitespace()));
}

#[test]
fn to_string_agrees_with_equality() {
    for left in subjects() {
        for right in subjects() {
            assert_eq!(left == right, to_string(&left) == to_string(&right));
        }
    }
}

#[test]
fn transport_to_string_does_not_recurse() {
    let deep = nested(DEEP);

    assert_eq!(to_string(&deep).len(), encoded_len(&deep));

    dismantle(deep);
}

// to_vec

#[test]
fn transport_to_vec_is_to_string_as_octets() {
    for subject in subjects() {
        assert_eq!(to_vec(&subject), to_string(&subject).into_bytes());
    }
}

#[test]
fn to_vec_is_to_string_as_octets_at_every_group_boundary() {
    for len in 0..32 {
        let subject = Sexp::atom(&vec![b'x'; len]);

        assert_eq!(to_vec(&subject), to_string(&subject).into_bytes());
    }
}

// encoded_len

#[test]
fn transport_encoded_len_matches_what_is_written() {
    for len in 0..32 {
        let subject = Sexp::atom(&vec![b'x'; len]);

        assert_eq!(encoded_len(&subject), to_string(&subject).len());
    }

    for subject in subjects() {
        assert_eq!(encoded_len(&subject), to_string(&subject).len());
    }
}

#[test]
fn encoded_len_counts_the_braces() {
    // The empty list is two octets canonically, which is one whole group
    // of four characters.
    assert_eq!(encoded_len(&list(vec![])), 6);
}

#[test]
fn transport_pieces_join_to_what_to_vec_writes() {
    let mut all = subjects();
    for len in 0..32 {
        all.push(Sexp::atom(&vec![b'x'; len]));
    }
    all.push(nested(50));

    for subject in all {
        let mut pieces = csexpr::encode::transport::pieces(&subject);
        let mut joined = Vec::new();

        while let Some(piece) = pieces.next() {
            joined.extend_from_slice(&piece);
        }

        assert_eq!(joined, to_vec(&subject));
        assert!(pieces.next().is_none());
    }
}
