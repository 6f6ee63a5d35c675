use std::collections::hash_map::DefaultHasher;
use std::hash::{Hash, Hasher};

use csexpr::types::{Atom, DEFAULT_HINT};

const DATA: &[u8] = b"data";
const OTHER_DATA: &[u8] = b"different";
const HINT: &[u8] = b"hint";
const OTHER_HINT: &[u8] = b"other";
const OCTETS: &[u8] = &[0x00, 0xff, 0x1b, 0x7f];

fn hash_of(atom: &Atom) -> u64 {
    let mut hasher = DefaultHasher::new();
    atom.hash(&mut hasher);
    hasher.finish()
}

fn equivalent_under_default(left: &Atom, right: &Atom, default: &[u8]) -> bool {
    left.data() == right.data() && left.effective_hint(default) == right.effective_hint(default)
}

// DEFAULT_HINT

#[test]
fn default_hint_is_the_media_type_the_rfc_specifies() {
    assert_eq!(&DEFAULT_HINT, b"application/octet-stream");
}

// Clone, PartialEq, Eq, Hash

#[test]
fn eq_holds_when_data_and_hint_are_equal() {
    assert_eq!(Atom::new(DATA), Atom::new(DATA));
    assert_eq!(
        Atom::new(DATA).with_hint(HINT),
        Atom::new(DATA).with_hint(HINT)
    );
}

#[test]
fn eq_fails_when_data_differs() {
    assert_ne!(Atom::new(DATA), Atom::new(OTHER_DATA));
    assert_ne!(
        Atom::new(DATA).with_hint(HINT),
        Atom::new(OTHER_DATA).with_hint(HINT)
    );
}

#[test]
fn eq_fails_when_hint_differs() {
    assert_ne!(
        Atom::new(DATA).with_hint(HINT),
        Atom::new(DATA).with_hint(OTHER_HINT)
    );
}

#[test]
fn eq_distinguishes_an_absent_hint_from_a_present_one() {
    assert_ne!(Atom::new(DATA), Atom::new(DATA).with_hint(HINT));
}

#[test]
fn eq_distinguishes_an_absent_hint_from_an_explicit_default() {
    assert_ne!(Atom::new(DATA), Atom::new(DATA).with_hint(&DEFAULT_HINT));
}

#[test]
fn eq_distinguishes_an_absent_hint_from_a_zero_length_one() {
    assert_ne!(Atom::new(DATA), Atom::new(DATA).with_hint(b""));
}

#[test]
fn eq_is_case_sensitive_in_data() {
    assert_ne!(Atom::new(b"data"), Atom::new(b"DATA"));
}

#[test]
fn eq_is_case_sensitive_in_hint() {
    assert_ne!(
        Atom::new(DATA).with_hint(b"hint"),
        Atom::new(DATA).with_hint(b"HINT")
    );
}

#[test]
fn atom_hash_agrees_with_eq() {
    for atom in [
        Atom::new(DATA),
        Atom::new(DATA).with_hint(HINT),
        Atom::new(DATA).with_hint(b""),
        Atom::new(b""),
    ] {
        assert_eq!(hash_of(&atom), hash_of(&atom.clone()));
    }
}

#[test]
fn atom_clone_equals_the_original() {
    for atom in [
        Atom::new(DATA),
        Atom::new(DATA).with_hint(HINT),
        Atom::new(OCTETS).with_hint(OCTETS),
    ] {
        assert_eq!(atom.clone(), atom);
    }
}

// new

#[test]
fn new_stores_data() {
    assert_eq!(Atom::new(DATA).data(), DATA);
}

#[test]
fn new_stores_no_hint() {
    assert_eq!(Atom::new(DATA).hint(), None);
}

#[test]
fn new_accepts_zero_length_data() {
    assert_eq!(Atom::new(b"").data(), b"");
}

#[test]
fn new_accepts_arbitrary_octets() {
    assert_eq!(Atom::new(OCTETS).data(), OCTETS);
}

#[test]
fn new_accepts_data_resembling_syntax() {
    let data: &[u8] = b"()[]{}|#\"3:abc";
    assert_eq!(Atom::new(data).data(), data);
}

// with_hint

#[test]
fn with_hint_stores_hint() {
    assert_eq!(Atom::new(DATA).with_hint(HINT).hint(), Some(HINT));
}

#[test]
fn with_hint_preserves_data() {
    assert_eq!(Atom::new(DATA).with_hint(HINT).data(), DATA);
}

#[test]
fn with_hint_keeps_at_most_one_hint() {
    let atom = Atom::new(DATA).with_hint(OTHER_HINT).with_hint(HINT);
    assert_eq!(atom.hint(), Some(HINT));
}

#[test]
fn with_hint_accepts_zero_length_hint() {
    assert_eq!(Atom::new(DATA).with_hint(b"").hint(), Some(&b""[..]));
}

#[test]
fn with_hint_accepts_arbitrary_octets() {
    assert_eq!(Atom::new(DATA).with_hint(OCTETS).hint(), Some(OCTETS));
}

// data, hint

#[test]
fn data_returns_the_stored_octets() {
    assert_eq!(Atom::new(OCTETS).with_hint(HINT).data(), OCTETS);
}

#[test]
fn hint_returns_none_when_absent() {
    assert_eq!(Atom::new(DATA).hint(), None);
}

#[test]
fn hint_returns_the_stored_octets() {
    assert_eq!(Atom::new(DATA).with_hint(OCTETS).hint(), Some(OCTETS));
}

// effective_hint

#[test]
fn effective_hint_prefers_the_stored_hint() {
    let atom = Atom::new(DATA).with_hint(HINT);
    assert_eq!(atom.effective_hint(&DEFAULT_HINT), HINT);
}

#[test]
fn effective_hint_falls_back_to_the_given_default() {
    assert_eq!(Atom::new(DATA).effective_hint(&DEFAULT_HINT), DEFAULT_HINT);
    assert_eq!(Atom::new(DATA).effective_hint(HINT), HINT);
}

#[test]
fn effective_hint_treats_a_zero_length_hint_as_present() {
    assert_eq!(Atom::new(DATA).with_hint(b"").effective_hint(HINT), b"");
}

#[test]
fn effective_hint_supports_the_default_hint_criterion() {
    let absent = Atom::new(DATA);
    let explicit = Atom::new(DATA).with_hint(&DEFAULT_HINT);

    assert_ne!(absent, explicit);
    assert!(equivalent_under_default(&absent, &explicit, &DEFAULT_HINT));
    assert!(!equivalent_under_default(
        &absent,
        &Atom::new(DATA).with_hint(HINT),
        &DEFAULT_HINT
    ));
}

// eq_ignoring_hint

#[test]
fn eq_ignoring_hint_holds_across_differing_hints() {
    let hinted = Atom::new(DATA).with_hint(HINT);

    assert!(hinted.eq_ignoring_hint(&Atom::new(DATA).with_hint(OTHER_HINT)));
    assert!(hinted.eq_ignoring_hint(&Atom::new(DATA)));
    assert!(hinted.eq_ignoring_hint(&Atom::new(DATA).with_hint(b"")));
}

#[test]
fn eq_ignoring_hint_still_compares_data() {
    let atom = Atom::new(DATA).with_hint(HINT);
    assert!(!atom.eq_ignoring_hint(&Atom::new(OTHER_DATA).with_hint(HINT)));
}

#[test]
fn eq_ignoring_hint_is_case_sensitive() {
    assert!(!Atom::new(b"data").eq_ignoring_hint(&Atom::new(b"DATA")));
}

// len, is_empty

#[test]
fn len_counts_data_octets() {
    assert_eq!(Atom::new(DATA).len(), DATA.len());
    assert_eq!(Atom::new(b"").len(), 0);
}

#[test]
fn len_ignores_hint() {
    assert_eq!(Atom::new(DATA).with_hint(&DEFAULT_HINT).len(), DATA.len());
}

#[test]
fn is_empty_reports_zero_length_data() {
    assert!(Atom::new(b"").is_empty());
    assert!(!Atom::new(DATA).is_empty());
}

#[test]
fn is_empty_ignores_hint() {
    assert!(Atom::new(b"").with_hint(HINT).is_empty());
}

// into_data, into_parts

#[test]
fn into_data_returns_the_data_octets() {
    let atom = Atom::new(DATA).with_hint(HINT);
    assert_eq!(&*atom.into_data(), DATA);
}

#[test]
fn into_parts_returns_data_then_hint() {
    let (data, hint) = Atom::new(DATA).with_hint(HINT).into_parts();

    assert_eq!(&*data, DATA);
    assert_eq!(hint.as_deref(), Some(HINT));
}

#[test]
fn into_parts_round_trips_every_hint_state() {
    for atom in [
        Atom::new(DATA),
        Atom::new(DATA).with_hint(HINT),
        Atom::new(DATA).with_hint(b""),
        Atom::new(b"").with_hint(HINT),
        Atom::new(OCTETS).with_hint(OCTETS),
    ] {
        let (data, hint) = atom.clone().into_parts();
        let rebuilt = match hint {
            Some(hint) => Atom::from(data).with_hint(&hint),
            None => Atom::from(data),
        };

        assert_eq!(rebuilt, atom);
    }
}

// from_parts

#[test]
fn from_parts_undoes_into_parts() {
    for atom in [
        Atom::new(DATA),
        Atom::new(DATA).with_hint(HINT),
        Atom::new(DATA).with_hint(b""),
        Atom::new(b"").with_hint(HINT),
        Atom::new(b"").with_hint(b""),
        Atom::new(OCTETS).with_hint(OCTETS),
    ] {
        let (data, hint) = atom.clone().into_parts();

        assert_eq!(Atom::from_parts(data, hint), atom);
    }
}

#[test]
fn from_parts_builds_what_new_and_with_hint_build() {
    let data: Box<[u8]> = Box::from(DATA);
    let hint: Box<[u8]> = Box::from(HINT);

    assert_eq!(Atom::from_parts(data.clone(), None), Atom::new(DATA));
    assert_eq!(
        Atom::from_parts(data, Some(hint)),
        Atom::new(DATA).with_hint(HINT)
    );
}

#[test]
fn from_parts_distinguishes_no_hint_from_a_zero_length_one() {
    let data: Box<[u8]> = Box::from(DATA);
    let absent = Atom::from_parts(data.clone(), None);
    let empty = Atom::from_parts(data, Some(Box::from(&b""[..])));

    assert_ne!(absent, empty);
    assert_eq!(absent.hint(), None);
    assert_eq!(empty.hint(), Some(&b""[..]));
}

// debug_string

#[test]
fn debug_renders_data() {
    assert_eq!(Atom::new(DATA).debug_string(), "4:data");
}

#[test]
fn debug_renders_hint_before_data() {
    let atom = Atom::new(DATA).with_hint(HINT);
    assert_eq!(atom.debug_string(), "[4:hint]4:data");
}

#[test]
fn debug_renders_zero_length_data_and_hint() {
    assert_eq!(Atom::new(b"").debug_string(), "0:");
    assert_eq!(Atom::new(b"").with_hint(b"").debug_string(), "[0:]0:");
}

#[test]
fn atom_debug_escapes_non_printable_octets() {
    let atom = Atom::new(&[0xff, 0x00, b'\n', b'\t']);
    assert_eq!(atom.debug_string(), r"4:\xff\x00\n\t");
}

#[test]
fn debug_escapes_quotes_and_backslash() {
    let atom = Atom::new(br#""'\"#);
    assert_eq!(atom.debug_string(), r#"3:\"\'\\"#);
}

#[test]
fn debug_is_lossless() {
    let escaped = Atom::new(br"\xff").debug_string();
    let raw = Atom::new(&[0xff]).debug_string();

    assert_ne!(escaped, raw);
}

#[test]
fn debug_escapes_as_the_standard_library_does() {
    let octets: Vec<u8> = (0..=255).collect();
    let expected = format!("256:{}", octets.escape_ascii());

    assert_eq!(Atom::new(&octets).debug_string(), expected);
}

// From

#[test]
fn from_conversions_agree() {
    let expected = Atom::new(DATA);

    assert_eq!(Atom::from("data"), expected);
    assert_eq!(Atom::from(String::from("data")), expected);
    assert_eq!(Atom::from(DATA), expected);
    assert_eq!(Atom::from(DATA.to_vec()), expected);
    assert_eq!(Atom::from(Box::from(DATA)), expected);
}

#[test]
fn from_conversions_store_no_hint() {
    assert_eq!(Atom::from("data").hint(), None);
    assert_eq!(Atom::from(String::from("data")).hint(), None);
    assert_eq!(Atom::from(DATA).hint(), None);
    assert_eq!(Atom::from(DATA.to_vec()).hint(), None);
    assert_eq!(Atom::from(Box::from(DATA)).hint(), None);
}

#[test]
fn from_conversions_accept_arbitrary_octets() {
    assert_eq!(Atom::from(OCTETS).data(), OCTETS);
    assert_eq!(Atom::from(OCTETS.to_vec()).data(), OCTETS);
    assert_eq!(Atom::from(Box::from(OCTETS)).data(), OCTETS);
}

#[test]
fn from_conversions_accept_zero_length_data() {
    assert!(Atom::from("").is_empty());
    assert!(Atom::from(String::new()).is_empty());
    assert!(Atom::from(Vec::new()).is_empty());
}
