//! The character rules the representations are written and read by.
//!
//! RFC 9804 §3 fixes the character set, and §4.3 fixes which octet strings may
//! stand as a token. Both the writer of the advanced representation and the
//! reader depend on exactly these rules, so they are stated once here.

use vstd::prelude::*;

verus! {

/// An ASCII digit, `0` to `9`.
pub open spec fn spec_is_digit(octet: u8) -> bool {
    0x30 <= octet <= 0x39
}

/// An ASCII letter of either case.
pub open spec fn spec_is_letter(octet: u8) -> bool {
    (0x41 <= octet <= 0x5a) || (0x61 <= octet <= 0x7a)
}

/// One of the eight punctuation marks §4.3 calls pseudo-alphabetic:
/// `-./_:*+=`.
pub open spec fn spec_is_punctuation(octet: u8) -> bool {
    octet == 0x2d || octet == 0x2e || octet == 0x2f || octet == 0x5f || octet == 0x3a
        || octet == 0x2a || octet == 0x2b || octet == 0x3d
}

/// An octet that may appear in a token (§4.3).
pub open spec fn spec_is_token(octet: u8) -> bool {
    spec_is_letter(octet) || spec_is_digit(octet) || spec_is_punctuation(octet)
}

/// An octet that may begin a token (§4.3).
pub open spec fn spec_is_token_start(octet: u8) -> bool {
    spec_is_letter(octet) || spec_is_punctuation(octet)
}

/// An octet string that may be written as a token (§4.3): one octet or
/// longer, not beginning with a digit, and made of token octets only.
pub open spec fn spec_qualifies_as_token(octets: Seq<u8>) -> bool {
    &&& octets.len() > 0
    &&& spec_is_token_start(octets[0])
    &&& forall|i: int| 0 <= i < octets.len() ==> #[trigger] spec_is_token(octets[i])
}

/// The six octets §3 counts as whitespace: space, tab, line feed, vertical
/// tab, form feed and carriage return.
pub open spec fn spec_is_whitespace(octet: u8) -> bool {
    octet == 0x20 || (0x09 <= octet <= 0x0d)
}

/// The value of a hexadecimal digit of either case.
pub open spec fn spec_hex_value(octet: u8) -> Option<u8> {
    if 0x30 <= octet <= 0x39 {
        Some((octet - 0x30) as u8)
    } else if 0x61 <= octet <= 0x66 {
        Some((octet - 0x61 + 10) as u8)
    } else if 0x41 <= octet <= 0x46 {
        Some((octet - 0x41 + 10) as u8)
    } else {
        None
    }
}

/// Returns `true` if the octet is an ASCII digit.
pub fn is_digit(octet: u8) -> (r: bool)
    ensures
        r == spec_is_digit(octet),
{
    0x30 <= octet && octet <= 0x39
}

/// Returns `true` if the octet is one of the eight punctuation marks of §4.3.
fn is_punctuation(octet: u8) -> (r: bool)
    ensures
        r == spec_is_punctuation(octet),
{
    octet == 0x2d || octet == 0x2e || octet == 0x2f || octet == 0x5f || octet == 0x3a
        || octet == 0x2a || octet == 0x2b || octet == 0x3d
}

/// Returns `true` if the octet is an ASCII letter.
fn is_letter(octet: u8) -> (r: bool)
    ensures
        r == spec_is_letter(octet),
{
    (0x41 <= octet && octet <= 0x5a) || (0x61 <= octet && octet <= 0x7a)
}

/// Returns `true` if the octet may appear in a token (§4.3).
pub fn is_token(octet: u8) -> (r: bool)
    ensures
        r == spec_is_token(octet),
{
    is_letter(octet) || is_digit(octet) || is_punctuation(octet)
}

/// Returns `true` if the octet may begin a token (§4.3).
///
/// A token may not begin with a digit, since a leading digit begins the length
/// that §4.1, §4.2, §4.4 and §4.5 allow before an octet string.
pub fn is_token_start(octet: u8) -> (r: bool)
    ensures
        r == spec_is_token_start(octet),
{
    is_letter(octet) || is_punctuation(octet)
}

/// Returns `true` if the octet string may be written as a token (§4.3).
///
/// §4.3 asks for three things of a token. It is one octet or longer, it does
/// not begin with a digit, and every octet in it is a letter, a digit, or one
/// of the eight punctuation marks.
pub fn qualifies_as_token(octets: &[u8]) -> (r: bool)
    ensures
        r == spec_qualifies_as_token(octets@),
{
    if octets.len() == 0 {
        return false;
    }
    if !is_token_start(octets[0]) {
        return false;
    }
    let mut index: usize = 1;
    while index < octets.len()
        invariant
            1 <= index <= octets.len(),
            spec_is_token_start(octets@[0]),
            forall|i: int| 0 <= i < index ==> #[trigger] spec_is_token(octets@[i]),
        decreases octets.len() - index,
    {
        if !is_token(octets[index]) {
            return false;
        }
        index = index + 1;
    }
    true
}

/// Returns `true` if the octet is whitespace (§3).
pub fn is_whitespace(octet: u8) -> (r: bool)
    ensures
        r == spec_is_whitespace(octet),
{
    octet == 0x20 || (0x09 <= octet && octet <= 0x0d)
}

/// Returns the value of a hexadecimal digit of either case, or `None` if the
/// octet is not one.
pub fn hex_value(octet: u8) -> (r: Option<u8>)
    ensures
        r == spec_hex_value(octet),
        r matches Some(v) ==> v < 16,
{
    if 0x30 <= octet && octet <= 0x39 {
        Some(octet - 0x30)
    } else if 0x61 <= octet && octet <= 0x66 {
        Some(octet - 0x61 + 10)
    } else if 0x41 <= octet && octet <= 0x46 {
        Some(octet - 0x41 + 10)
    } else {
        None
    }
}

} // verus!
