//! What a parse reports when it stops.
//!
//! An [`Error`] says what was wrong and where, in the form of an [`ErrorKind`]
//! and an offset. The kinds fall into two groups. Some name a place where the
//! input departs from the grammar of RFC 9804 §7, and the rest name a
//! restriction of §8 that [`crate::decode::Parser`] was asked to impose and
//! the input broke.

use vstd::prelude::*;

use crate::encode::canonical::{spec_decimal, write_decimal};
use crate::text::{ascii_chars, push_octets};

verus! {

/// What was wrong with the input.
///
/// More kinds may be added, so match with a wildcard arm.
#[derive(Clone, Copy, Debug, PartialEq, Eq, Hash, Structural)]
#[non_exhaustive]
pub enum ErrorKind {
    /// The input ended in the middle of an S-expression.
    UnexpectedEnd,
    /// An octet appeared where the grammar admits no such octet.
    UnexpectedOctet,
    /// Octets follow an S-expression that is already complete.
    TrailingOctets,
    /// A closing parenthesis appeared with no list open.
    UnmatchedParenthesis,
    /// A length began with a zero and went on, which §7 forbids.
    LengthLeadingZero,
    /// A length was too large to represent.
    LengthOverflow,
    /// A length disagreed with the octet string it counts.
    LengthMismatch,
    /// A backslash in a quoted string began no escape §4.2 defines.
    InvalidEscape,
    /// An octet inside `#` and `#` was neither a hexadecimal digit nor
    /// whitespace.
    InvalidHexDigit,
    /// A hexadecimal octet string held an odd number of digits.
    OddHexDigits,
    /// An octet inside a base-64 encoding was not a base-64 character, or the
    /// encoding did not end as RFC 4648 requires.
    InvalidBase64,
    /// A display hint preceded a list, which §7 admits only before an octet
    /// string.
    HintOnList,
    /// Lists nested deeper than the parser allows.
    TooDeep,
    /// An octet string was longer than the parser allows.
    AtomTooLong,
    /// The input was longer than the parser allows.
    InputTooLong,
    /// A display hint appeared, and the parser allows none (§8).
    HintNotAllowed,
    /// A zero-length octet string appeared, and the parser allows none (§8).
    EmptyAtomNotAllowed,
    /// An empty list appeared, and the parser allows none (§8).
    EmptyListNotAllowed,
    /// A list began with a list, and the parser allows no such list (§8).
    ListAsFirstElementNotAllowed,
    /// A construct of the advanced representation appeared, and the parser
    /// allows only the canonical representation (§8).
    AdvancedNotAllowed,
    /// A basic transport representation appeared, and the parser allows none.
    TransportNotAllowed,
    /// A hexadecimal octet string appeared, and the parser allows none (§8).
    HexadecimalNotAllowed,
    /// A base-64 octet string appeared, and the parser allows none (§8).
    Base64NotAllowed,
    /// A length preceded a quoted, hexadecimal, or base-64 octet string, and
    /// the parser allows none there (§8).
    LengthNotAllowed,
}

/// What each kind of failure is called in words.
pub open spec fn spec_kind_text(kind: ErrorKind) -> Seq<char> {
    match kind {
        ErrorKind::UnexpectedEnd => "the input ended in the middle of an S-expression"@,
        ErrorKind::UnexpectedOctet => "an octet that cannot appear here"@,
        ErrorKind::TrailingOctets => "octets after a complete S-expression"@,
        ErrorKind::UnmatchedParenthesis => "a closing parenthesis with no list open"@,
        ErrorKind::LengthLeadingZero => "a length with a leading zero"@,
        ErrorKind::LengthOverflow => "a length too large to represent"@,
        ErrorKind::LengthMismatch => "a length that disagrees with the octets it counts"@,
        ErrorKind::InvalidEscape => "an escape that is not defined"@,
        ErrorKind::InvalidHexDigit => "an octet that is not a hexadecimal digit"@,
        ErrorKind::OddHexDigits => "an odd number of hexadecimal digits"@,
        ErrorKind::InvalidBase64 => "an octet that does not belong in a base-64 encoding"@,
        ErrorKind::HintOnList => "a display hint before a list"@,
        ErrorKind::TooDeep => "lists nested deeper than allowed"@,
        ErrorKind::AtomTooLong => "an octet string longer than allowed"@,
        ErrorKind::InputTooLong => "input longer than allowed"@,
        ErrorKind::HintNotAllowed => "a display hint, which is not allowed"@,
        ErrorKind::EmptyAtomNotAllowed => "a zero-length octet string, which is not allowed"@,
        ErrorKind::EmptyListNotAllowed => "an empty list, which is not allowed"@,
        ErrorKind::ListAsFirstElementNotAllowed => "a list as the first element of a list, which is not allowed"@,
        ErrorKind::AdvancedNotAllowed => "the advanced representation, which is not allowed"@,
        ErrorKind::TransportNotAllowed => "the basic transport representation, which is not allowed"@,
        ErrorKind::HexadecimalNotAllowed => "a hexadecimal octet string, which is not allowed"@,
        ErrorKind::Base64NotAllowed => "a base-64 octet string, which is not allowed"@,
        ErrorKind::LengthNotAllowed => "a length before an octet string, which is not allowed"@,
    }
}

impl ErrorKind {
    /// Returns what this kind of failure is called in words.
    pub fn message(&self) -> (r: &'static str)
        ensures
            r@ == spec_kind_text(*self),
    {
        match self {
            ErrorKind::UnexpectedEnd => "the input ended in the middle of an S-expression",
            ErrorKind::UnexpectedOctet => "an octet that cannot appear here",
            ErrorKind::TrailingOctets => "octets after a complete S-expression",
            ErrorKind::UnmatchedParenthesis => "a closing parenthesis with no list open",
            ErrorKind::LengthLeadingZero => "a length with a leading zero",
            ErrorKind::LengthOverflow => "a length too large to represent",
            ErrorKind::LengthMismatch => "a length that disagrees with the octets it counts",
            ErrorKind::InvalidEscape => "an escape that is not defined",
            ErrorKind::InvalidHexDigit => "an octet that is not a hexadecimal digit",
            ErrorKind::OddHexDigits => "an odd number of hexadecimal digits",
            ErrorKind::InvalidBase64 => "an octet that does not belong in a base-64 encoding",
            ErrorKind::HintOnList => "a display hint before a list",
            ErrorKind::TooDeep => "lists nested deeper than allowed",
            ErrorKind::AtomTooLong => "an octet string longer than allowed",
            ErrorKind::InputTooLong => "input longer than allowed",
            ErrorKind::HintNotAllowed => "a display hint, which is not allowed",
            ErrorKind::EmptyAtomNotAllowed => "a zero-length octet string, which is not allowed",
            ErrorKind::EmptyListNotAllowed => "an empty list, which is not allowed",
            ErrorKind::ListAsFirstElementNotAllowed => "a list as the first element of a list, which is not allowed",
            ErrorKind::AdvancedNotAllowed => "the advanced representation, which is not allowed",
            ErrorKind::TransportNotAllowed => "the basic transport representation, which is not allowed",
            ErrorKind::HexadecimalNotAllowed => "a hexadecimal octet string, which is not allowed",
            ErrorKind::Base64NotAllowed => "a base-64 octet string, which is not allowed",
            ErrorKind::LengthNotAllowed => "a length before an octet string, which is not allowed",
        }
    }

    /// Returns what this kind of failure is called in words, as a `String`.
    pub fn to_string(&self) -> (r: String)
        ensures
            r@ == spec_kind_text(*self),
    {
        self.message().to_owned()
    }
}

/// No two kinds of failure are called alike, and each is called by a phrase
/// that is not empty and does not end in a full stop.
pub proof fn lemma_kind_texts(a: ErrorKind, b: ErrorKind)
    ensures
        spec_kind_text(a) == spec_kind_text(b) ==> a == b,
        spec_kind_text(a).len() > 0,
        spec_kind_text(a).last() != '.',
{
    reveal_strlit("the input ended in the middle of an S-expression");
    reveal_strlit("an octet that cannot appear here");
    reveal_strlit("octets after a complete S-expression");
    reveal_strlit("a closing parenthesis with no list open");
    reveal_strlit("a length with a leading zero");
    reveal_strlit("a length too large to represent");
    reveal_strlit("a length that disagrees with the octets it counts");
    reveal_strlit("an escape that is not defined");
    reveal_strlit("an octet that is not a hexadecimal digit");
    reveal_strlit("an odd number of hexadecimal digits");
    reveal_strlit("an octet that does not belong in a base-64 encoding");
    reveal_strlit("a display hint before a list");
    reveal_strlit("lists nested deeper than allowed");
    reveal_strlit("an octet string longer than allowed");
    reveal_strlit("input longer than allowed");
    reveal_strlit("a display hint, which is not allowed");
    reveal_strlit("a zero-length octet string, which is not allowed");
    reveal_strlit("an empty list, which is not allowed");
    reveal_strlit("a list as the first element of a list, which is not allowed");
    reveal_strlit("the advanced representation, which is not allowed");
    reveal_strlit("the basic transport representation, which is not allowed");
    reveal_strlit("a hexadecimal octet string, which is not allowed");
    reveal_strlit("a base-64 octet string, which is not allowed");
    reveal_strlit("a length before an octet string, which is not allowed");
    let (x, y) = (spec_kind_text(a), spec_kind_text(b));
    if x == y {
        // The length and the fifth character tell every two kinds apart.
        assert(x.len() == y.len() && x[4] == y[4]);
    }
}

/// What a failure is made of: its kind, and the offset it is reported at.
pub type Failure = (ErrorKind, int);

/// What was wrong with the input, and where.
///
/// The offset is where the offending construct begins, counted in octets from
/// the start of the input the parser was given. An error found inside a basic
/// transport representation is reported at the opening brace, since the octets
/// it was found in are the result of decoding and appear nowhere in the input.
#[derive(Clone, Copy, Debug, PartialEq, Eq, Hash, Structural)]
pub struct Error {
    kind: ErrorKind,
    offset: usize,
}

impl View for Error {
    type V = Failure;

    closed spec fn view(&self) -> Failure {
        (self.kind, self.offset as int)
    }
}

impl Error {
    /// Creates an error of the given kind, at the given offset.
    pub fn new(kind: ErrorKind, offset: usize) -> (r: Self)
        ensures
            r@ == (kind, offset as int),
    {
        Error { kind, offset }
    }

    /// Returns what was wrong.
    pub fn kind(&self) -> (r: ErrorKind)
        ensures
            r == self@.0,
    {
        self.kind
    }

    /// Returns where in the input the offending construct begins, in octets.
    pub fn offset(&self) -> (r: usize)
        ensures
            r == self@.1,
    {
        self.offset
    }
}

/// How an error reads in words: its kind, then where it was found.
pub open spec fn spec_error_text(failure: Failure) -> Seq<char> {
    spec_kind_text(failure.0) + " at offset "@ + ascii_chars(spec_decimal(failure.1 as nat))
}

/// Two errors of the same kind at the same offset are the same error.
pub proof fn lemma_error_by_view(a: Error, b: Error)
    ensures
        a@ == b@ ==> a == b,
{
}

/// What caused an error, where something did.
pub enum Cause<'a> {
    /// Reading the input failed.
    Io(&'a std::io::Error),
    /// The input was read, and parsing it failed.
    Parse(&'a Error),
}

impl Error {
    /// Returns how the error reads in words: its kind, then where it was
    /// found.
    pub fn to_string(&self) -> (r: String)
        ensures
            r@ == spec_error_text(self@),
    {
        let mut text = self.kind.message().to_owned();
        text.append(" at offset ");
        let mut digits: Vec<u8> = Vec::new();
        write_decimal(self.offset, &mut digits);
        push_octets(&mut text, digits.as_slice());
        assert(digits@ =~= spec_decimal(self.offset as nat));
        text
    }

    /// Returns what caused the error: nothing, since it was found in the
    /// input itself.
    pub fn source(&self) -> (r: Option<Cause<'_>>)
        ensures
            r is None,
    {
        None
    }
}

/// `std::io::Error`, what a reader reports when it fails.
#[verifier::external_type_specification]
#[verifier::external_body]
pub struct ExIoError(std::io::Error);

/// What reading and parsing reports when either one stops.
///
/// Returned where the input has to be read before it can be parsed and either
/// step may fail.
#[derive(Debug)]
#[non_exhaustive]
pub enum ReadError {
    /// The reader failed before the input was in hand.
    Io(std::io::Error),
    /// The input was read, and it is not an S-expression the parser accepts.
    Parse(Error),
}

/// Returns what `std::io::Error`'s `Display` writes for `error`.
///
/// Calls `ToString::to_string` on the error. Its contract claims nothing of
/// the text, which depends on the system the error came from.
#[verifier::external_body]
fn io_error_text(error: &std::io::Error) -> String {
    error.to_string()
}

impl ReadError {
    /// Returns how the error reads in words: for a failure to read, a phrase
    /// that says so followed by what the reader reported; for a failure to
    /// parse, what that error reads as.
    pub fn to_string(&self) -> (r: String)
        ensures
            match self {
                ReadError::Io(_) => "the input could not be read, "@.is_prefix_of(r@),
                ReadError::Parse(error) => r@ == spec_error_text(error@),
            },
    {
        match self {
            ReadError::Io(error) => {
                let lead = "the input could not be read, ";
                let mut text = lead.to_owned();
                let said = io_error_text(error);
                text.append(said.as_str());
                assert(lead@.is_prefix_of(text@)) by {
                    assert(text@.subrange(0, lead@.len() as int) =~= lead@);
                }
                text
            },
            ReadError::Parse(error) => error.to_string(),
        }
    }

    /// Returns what caused the error: the reader's failure, or the parse
    /// error.
    pub fn source(&self) -> (r: Option<Cause<'_>>)
        ensures
            match self {
                ReadError::Io(error) => r == Some(Cause::Io(error)),
                ReadError::Parse(error) => r == Some(Cause::Parse(error)),
            },
    {
        match self {
            ReadError::Io(error) => Some(Cause::Io(error)),
            ReadError::Parse(error) => Some(Cause::Parse(error)),
        }
    }
}

impl From<std::io::Error> for ReadError {
    fn from(error: std::io::Error) -> (r: Self)
        ensures
            r == ReadError::Io(error),
    {
        ReadError::Io(error)
    }
}

impl vstd::std_specs::convert::FromSpecImpl<std::io::Error> for ReadError {
    open spec fn obeys_from_spec() -> bool {
        true
    }

    open spec fn from_spec(error: std::io::Error) -> Self {
        ReadError::Io(error)
    }
}

impl From<Error> for ReadError {
    fn from(error: Error) -> (r: Self)
        ensures
            r == ReadError::Parse(error),
    {
        ReadError::Parse(error)
    }
}

impl vstd::std_specs::convert::FromSpecImpl<Error> for ReadError {
    open spec fn obeys_from_spec() -> bool {
        true
    }

    open spec fn from_spec(error: Error) -> Self {
        ReadError::Parse(error)
    }
}

} // verus!
