use std::io;

use csexpr::decode::error::Cause;
use csexpr::decode::{Error, ErrorKind, ReadError};

/// Every kind, so that a rule about all of them is tested on all of them.
const KINDS: &[ErrorKind] = &[
    ErrorKind::UnexpectedEnd,
    ErrorKind::UnexpectedOctet,
    ErrorKind::TrailingOctets,
    ErrorKind::UnmatchedParenthesis,
    ErrorKind::LengthLeadingZero,
    ErrorKind::LengthOverflow,
    ErrorKind::LengthMismatch,
    ErrorKind::InvalidEscape,
    ErrorKind::InvalidHexDigit,
    ErrorKind::OddHexDigits,
    ErrorKind::InvalidBase64,
    ErrorKind::HintOnList,
    ErrorKind::TooDeep,
    ErrorKind::AtomTooLong,
    ErrorKind::InputTooLong,
    ErrorKind::HintNotAllowed,
    ErrorKind::EmptyAtomNotAllowed,
    ErrorKind::EmptyListNotAllowed,
    ErrorKind::ListAsFirstElementNotAllowed,
    ErrorKind::AdvancedNotAllowed,
    ErrorKind::TransportNotAllowed,
    ErrorKind::HexadecimalNotAllowed,
    ErrorKind::Base64NotAllowed,
    ErrorKind::LengthNotAllowed,
];

// Error

#[test]
fn error_keeps_the_kind_and_the_offset() {
    let error = Error::new(ErrorKind::UnexpectedEnd, 7);

    assert_eq!(error.kind(), ErrorKind::UnexpectedEnd);
    assert_eq!(error.offset(), 7);
}

#[test]
fn error_compares_by_kind_and_offset() {
    let error = Error::new(ErrorKind::UnexpectedEnd, 7);

    assert_eq!(error, Error::new(ErrorKind::UnexpectedEnd, 7));
    assert_ne!(error, Error::new(ErrorKind::UnexpectedEnd, 8));
    assert_ne!(error, Error::new(ErrorKind::UnexpectedOctet, 7));
}

#[test]
fn error_displays_the_kind_and_the_offset() {
    let error = Error::new(ErrorKind::TrailingOctets, 12);

    assert_eq!(
        error.to_string(),
        "octets after a complete S-expression at offset 12"
    );
}

#[test]
fn error_has_no_source() {
    assert!(Error::new(ErrorKind::UnexpectedEnd, 0).source().is_none());
}

#[test]
fn error_displays_offsets_of_every_size() {
    let error = Error::new(ErrorKind::UnexpectedEnd, 0);
    assert_eq!(
        error.to_string(),
        "the input ended in the middle of an S-expression at offset 0"
    );

    let error = Error::new(ErrorKind::InputTooLong, usize::MAX);
    assert_eq!(
        error.to_string(),
        format!("input longer than allowed at offset {}", usize::MAX)
    );
}

// ErrorKind

#[test]
fn every_kind_displays_something() {
    for kind in KINDS {
        let said = kind.to_string();

        assert!(!said.is_empty());
        assert!(!said.ends_with('.'));
    }
}

#[test]
fn no_two_kinds_display_the_same() {
    for (index, kind) in KINDS.iter().enumerate() {
        for other in &KINDS[index + 1..] {
            assert_ne!(kind.to_string(), other.to_string());
        }
    }
}

#[test]
fn kind_message_is_what_it_displays() {
    for kind in KINDS {
        assert_eq!(kind.message(), kind.to_string());
    }
}

// ReadError

#[test]
fn read_error_carries_a_failure_to_read() {
    let failure = io::Error::from(io::ErrorKind::UnexpectedEof);
    let error = ReadError::from(failure);

    assert!(matches!(error, ReadError::Io(_)));
    assert!(error.source().is_some());
    assert!(error.to_string().starts_with("the input could not be read"));
}

#[test]
fn read_error_carries_a_failure_to_parse() {
    let failure = Error::new(ErrorKind::UnexpectedEnd, 3);
    let error = ReadError::from(failure);

    assert!(matches!(error, ReadError::Parse(_)));
    assert!(error.source().is_some());
    assert_eq!(error.to_string(), failure.to_string());
}

#[test]
fn read_error_names_what_caused_it() {
    let failure = Error::new(ErrorKind::TooDeep, 5);

    match ReadError::from(failure).source() {
        Some(Cause::Parse(cause)) => assert_eq!(*cause, failure),
        _ => panic!("a failure to parse is caused by the parse error"),
    }

    let error = ReadError::from(io::Error::from(io::ErrorKind::UnexpectedEof));
    match error.source() {
        Some(Cause::Io(cause)) => assert_eq!(cause.kind(), io::ErrorKind::UnexpectedEof),
        _ => panic!("a failure to read is caused by the reader's error"),
    }
}
