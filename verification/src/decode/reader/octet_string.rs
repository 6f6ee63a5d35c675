//! Reading one octet string, in any of the forms §4 gives it.
//!
//! §4 writes an octet string five ways. Verbatim (§4.1) is a length, a colon,
//! and the octets, which is the only form the canonical representation uses. A
//! quoted string (§4.2) is text between quotes, with backslash escapes. A
//! token (§4.3) is the octets standing bare. Hexadecimal (§4.4) is two digits
//! per octet between two `#` characters, and base 64 (§4.5) is the encoding of
//! RFC 4648 between two `|` characters. The last four may each be preceded by
//! the length they decode to, and all four belong to the advanced
//! representation alone.
//!
//! Which form is in front of the reader is settled by its first octet, except
//! that a digit begins either a verbatim octet string or the length before one
//! of the other three, which the octet after the digits settles.

use vstd::prelude::*;

use crate::base64::{decode, slice_range, spec_decode};
use crate::decode::error::{Error, ErrorKind, Failure};
use crate::decode::parser::Parser;
use crate::decode::reader::quoted::{declared_view, lemma_quoted_progress, spec_quoted};
use crate::decode::reader::{
    check_agrees, lemma_find, octets_agree, spec_check_declared, spec_find, Outcome, Reader,
};
use crate::syntax::{
    hex_value, is_digit, is_token, is_token_start, is_whitespace, spec_hex_value, spec_is_digit,
    spec_is_token, spec_is_token_start, spec_is_whitespace,
};

verus! {

/// A length written in decimal from `position` on, `value` read so far from
/// `digits` digits, the length beginning at `start`.
///
/// §7 forbids a leading zero in a length that goes on, and a length too large
/// for a `usize` cannot be represented.
pub open spec fn spec_decimal_from(
    input: Seq<u8>,
    start: int,
    position: int,
    value: int,
    digits: int,
) -> Outcome<int>
    decreases input.len() - position,
{
    if 0 <= position < input.len() && spec_is_digit(input[position]) {
        if digits == 1 && value == 0 {
            Err((ErrorKind::LengthLeadingZero, start))
        } else {
            let next = value * 10 + (input[position] - 0x30);
            if next > usize::MAX {
                Err((ErrorKind::LengthOverflow, start))
            } else {
                spec_decimal_from(input, start, position + 1, next, digits + 1)
            }
        }
    } else {
        Ok((value, position))
    }
}

/// A length written in decimal at `position`.
pub open spec fn spec_length(input: Seq<u8>, position: int) -> Outcome<int> {
    spec_decimal_from(input, position, position, 0, 0)
}

/// The octets of a verbatim octet string of `len` octets from `position` on
/// (§4.1). Nothing is taken on the strength of the length alone.
pub open spec fn spec_verbatim(input: Seq<u8>, position: int, len: int) -> Outcome<Seq<u8>> {
    let end = position + len;
    if end > usize::MAX {
        Err((ErrorKind::LengthOverflow, position))
    } else if end > input.len() {
        Err((ErrorKind::UnexpectedEnd, input.len() as int))
    } else {
        Ok((input.subrange(position, end), end))
    }
}

/// The rest of a hexadecimal octet string from `position` on, `octets` read
/// so far, and the first digit of an unfinished octet in `high`.
pub open spec fn spec_hexadecimal_from(
    input: Seq<u8>,
    start: int,
    declared: Option<int>,
    position: int,
    octets: Seq<u8>,
    high: Option<u8>,
) -> Outcome<Seq<u8>>
    decreases input.len() - position,
{
    if position < 0 || position >= input.len() {
        Err((ErrorKind::UnexpectedEnd, input.len() as int))
    } else {
        let octet = input[position];
        if octet == 0x23 {
            if high is Some {
                Err((ErrorKind::OddHexDigits, start))
            } else {
                match spec_check_declared(declared, octets.len() as int, start) {
                    Err(failure) => Err(failure),
                    Ok(()) => Ok((octets, position + 1)),
                }
            }
        } else if spec_is_whitespace(octet) {
            spec_hexadecimal_from(input, start, declared, position + 1, octets, high)
        } else {
            match spec_hex_value(octet) {
                None => Err((ErrorKind::InvalidHexDigit, position)),
                Some(value) => match high {
                    Some(first) => spec_hexadecimal_from(
                        input,
                        start,
                        declared,
                        position + 1,
                        octets.push((first << 4u8) | value),
                        None,
                    ),
                    None => spec_hexadecimal_from(
                        input,
                        start,
                        declared,
                        position + 1,
                        octets,
                        Some(value),
                    ),
                },
            }
        }
    }
}

/// A hexadecimal octet string whose opening `#` stands at `position` (§4.4).
pub open spec fn spec_hexadecimal(
    input: Seq<u8>,
    start: int,
    declared: Option<int>,
    position: int,
) -> Outcome<Seq<u8>> {
    spec_hexadecimal_from(input, start, declared, position + 1, Seq::empty(), None)
}

/// A base-64 octet string whose opening `|` stands at `position` (§4.5).
pub open spec fn spec_base64_string(
    input: Seq<u8>,
    start: int,
    declared: Option<int>,
    position: int,
) -> Outcome<Seq<u8>> {
    let from = position + 1;
    match spec_find(input, from, 0x7c) {
        None => Err((ErrorKind::UnexpectedEnd, input.len() as int)),
        Some(end) => match spec_decode(input.subrange(from, end)) {
            Err(offset) => Err((ErrorKind::InvalidBase64, from + offset)),
            Ok(octets) => match spec_check_declared(declared, octets.len() as int, start) {
                Err(failure) => Err(failure),
                Ok(()) => Ok((octets, end + 1)),
            },
        },
    }
}

/// Where a token that begins at `position` ends: at the first octet that
/// cannot be in one.
pub open spec fn spec_token_end(input: Seq<u8>, position: int) -> int
    decreases input.len() - position,
{
    if 0 <= position < input.len() && spec_is_token(input[position]) {
        spec_token_end(input, position + 1)
    } else {
        position
    }
}

/// A token that begins at `position` (§4.3).
pub open spec fn spec_token(input: Seq<u8>, position: int) -> (Seq<u8>, int) {
    let end = spec_token_end(input, position);
    (input.subrange(position, end), end)
}

/// Reads past a token, and not past the end.
pub proof fn lemma_token_end(input: Seq<u8>, position: int)
    requires
        0 <= position <= input.len(),
    ensures
        position <= spec_token_end(input, position) <= input.len(),
        forall|i: int|
            position <= i < spec_token_end(input, position) ==> #[trigger] spec_is_token(input[i]),
    decreases input.len() - position,
{
    if position < input.len() && spec_is_token(input[position]) {
        lemma_token_end(input, position + 1);
    }
}

/// An octet string the parser was told to refuse, reported where it begins.
pub open spec fn spec_check_octet_string(parser: Parser, octets: Seq<u8>, start: int) -> Result<
    (),
    Failure,
> {
    if octets.len() == 0 && !parser.empty_atoms {
        Err((ErrorKind::EmptyAtomNotAllowed, start))
    } else if octets.len() > parser.max_atom_len {
        Err((ErrorKind::AtomTooLong, start))
    } else {
        Ok(())
    }
}

/// A construct the parser was told to refuse, reported where the octet string
/// it belongs to begins, or nothing where it is allowed.
pub open spec fn spec_require(allowed: bool, kind: ErrorKind, start: int) -> Result<(), Failure> {
    if allowed {
        Ok(())
    } else {
        Err((kind, start))
    }
}

/// The form after a length, settled by the octet that follows the digits.
pub open spec fn spec_after_length(
    parser: Parser,
    input: Seq<u8>,
    start: int,
    len: int,
    after: int,
) -> Outcome<Seq<u8>> {
    if after < 0 || after >= input.len() {
        Err((ErrorKind::UnexpectedEnd, input.len() as int))
    } else {
        let octet = input[after];
        if octet == 0x3a {
            spec_verbatim(input, after + 1, len)
        } else if octet == 0x22 {
            if !parser.advanced {
                Err((ErrorKind::AdvancedNotAllowed, start))
            } else if !parser.lengths {
                Err((ErrorKind::LengthNotAllowed, start))
            } else {
                spec_quoted(input, start, Some(len), after)
            }
        } else if octet == 0x23 {
            if !parser.advanced {
                Err((ErrorKind::AdvancedNotAllowed, start))
            } else if !parser.hexadecimal {
                Err((ErrorKind::HexadecimalNotAllowed, start))
            } else if !parser.lengths {
                Err((ErrorKind::LengthNotAllowed, start))
            } else {
                spec_hexadecimal(input, start, Some(len), after)
            }
        } else if octet == 0x7c {
            if !parser.advanced {
                Err((ErrorKind::AdvancedNotAllowed, start))
            } else if !parser.base64 {
                Err((ErrorKind::Base64NotAllowed, start))
            } else if !parser.lengths {
                Err((ErrorKind::LengthNotAllowed, start))
            } else {
                spec_base64_string(input, start, Some(len), after)
            }
        } else {
            Err((ErrorKind::UnexpectedOctet, after))
        }
    }
}

/// The octets of one octet string at `position`, in whichever of the forms of
/// §4 it is written, before the parser's limits on octet strings apply.
pub open spec fn spec_form(parser: Parser, input: Seq<u8>, position: int) -> Outcome<Seq<u8>> {
    let start = position;
    if position < 0 || position >= input.len() {
        Err((ErrorKind::UnexpectedEnd, input.len() as int))
    } else {
        let octet = input[position];
        if spec_is_digit(octet) {
            match spec_length(input, position) {
                Err(failure) => Err(failure),
                Ok((len, after)) => spec_after_length(parser, input, start, len, after),
            }
        } else if octet == 0x22 {
            if !parser.advanced {
                Err((ErrorKind::AdvancedNotAllowed, start))
            } else {
                spec_quoted(input, start, None, position)
            }
        } else if octet == 0x23 {
            if !parser.advanced {
                Err((ErrorKind::AdvancedNotAllowed, start))
            } else if !parser.hexadecimal {
                Err((ErrorKind::HexadecimalNotAllowed, start))
            } else {
                spec_hexadecimal(input, start, None, position)
            }
        } else if octet == 0x7c {
            if !parser.advanced {
                Err((ErrorKind::AdvancedNotAllowed, start))
            } else if !parser.base64 {
                Err((ErrorKind::Base64NotAllowed, start))
            } else {
                spec_base64_string(input, start, None, position)
            }
        } else if spec_is_token_start(octet) {
            if !parser.advanced {
                Err((ErrorKind::AdvancedNotAllowed, start))
            } else {
                Ok(spec_token(input, position))
            }
        } else {
            Err((ErrorKind::UnexpectedOctet, position))
        }
    }
}

/// One octet string at `position`, in whichever of the forms of §4 it is
/// written, and within the parser's limits on octet strings.
pub open spec fn spec_simple_string(parser: Parser, input: Seq<u8>, position: int) -> Outcome<
    Seq<u8>,
> {
    match spec_form(parser, input, position) {
        Err(failure) => Err(failure),
        Ok((octets, next)) => match spec_check_octet_string(parser, octets, position) {
            Err(failure) => Err(failure),
            Ok(()) => Ok((octets, next)),
        },
    }
}

/// A length ends where its digits end, within the input.
pub proof fn lemma_decimal_progress(
    input: Seq<u8>,
    start: int,
    position: int,
    value: int,
    digits: int,
)
    requires
        0 <= position <= input.len(),
        0 <= value <= usize::MAX,
    ensures
        spec_decimal_from(input, start, position, value, digits) matches Ok((len, next))
            ==> position <= next <= input.len() && 0 <= len <= usize::MAX,

    decreases input.len() - position,
{
    if 0 <= position < input.len() && spec_is_digit(input[position]) {
        let next = value * 10 + (input[position] - 0x30);
        if !(digits == 1 && value == 0) && next <= usize::MAX {
            lemma_decimal_progress(input, start, position + 1, next, digits + 1);
        }
    }
}

/// A hexadecimal octet string ends past where it began, within the input.
pub proof fn lemma_hexadecimal_progress(
    input: Seq<u8>,
    start: int,
    declared: Option<int>,
    position: int,
    octets: Seq<u8>,
    high: Option<u8>,
)
    ensures
        spec_hexadecimal_from(input, start, declared, position, octets, high) matches Ok((_, next))
            ==> position < next <= input.len(),
    decreases input.len() - position,
{
    if 0 <= position < input.len() {
        let octet = input[position];
        if octet != 0x23 {
            if spec_is_whitespace(octet) {
                lemma_hexadecimal_progress(input, start, declared, position + 1, octets, high);
            } else if let Some(value) = spec_hex_value(octet) {
                match high {
                    Some(first) => lemma_hexadecimal_progress(
                        input,
                        start,
                        declared,
                        position + 1,
                        octets.push((first << 4u8) | value),
                        None,
                    ),
                    None => lemma_hexadecimal_progress(
                        input,
                        start,
                        declared,
                        position + 1,
                        octets,
                        Some(value),
                    ),
                }
            }
        }
    }
}

/// An octet string ends past where it began, within the input.
pub proof fn lemma_simple_string_progress(parser: Parser, input: Seq<u8>, position: int)
    requires
        0 <= position <= input.len(),
    ensures
        spec_simple_string(parser, input, position) matches Ok((_, next)) ==> position < next
            <= input.len(),
{
    if position < input.len() {
        let octet = input[position];
        if spec_is_digit(octet) {
            lemma_decimal_progress(input, position, position, 0, 0);
            if let Ok((len, after)) = spec_length(input, position) {
                if 0 <= after < input.len() {
                    lemma_quoted_progress(input, position, Some(len), after + 1, Seq::empty());
                    lemma_hexadecimal_progress(input, position, Some(len), after + 1, Seq::empty(), None);
                    lemma_find(input, after + 1, 0x7c);
                }
            }
        } else if octet == 0x22 {
            lemma_quoted_progress(input, position, None, position + 1, Seq::empty());
        } else if octet == 0x23 {
            lemma_hexadecimal_progress(input, position, None, position + 1, Seq::empty(), None);
        } else if octet == 0x7c {
            lemma_find(input, position + 1, 0x7c);
        } else if spec_is_token_start(octet) {
            lemma_token_end(input, position + 1);
            assert(spec_token_end(input, position) == spec_token_end(input, position + 1));
        }
    }
}

/// The exec result of a check of an octet string's form is the one the
/// specification gives.
pub open spec fn require_agrees(r: Result<(), Error>, allowed: bool, kind: ErrorKind, start: int) -> bool {
    check_agrees(r, spec_require(allowed, kind, start))
}

impl<'a> Reader<'a> {
    /// Reads one octet string, in whichever of the forms of §4 it is written.
    pub fn simple_string(&mut self) -> (r: Result<Vec<u8>, Error>)
        requires
            old(self).wf(),
        ensures
            final(self).wf(),
            final(self).same_source(old(self)),
            octets_agree(
                r,
                spec_simple_string(*old(self).parser, old(self).input@, old(self).offset as int),
                final(self).offset,
            ),
    {
        let start = self.offset;
        let octets = match self.form() {
            Ok(octets) => octets,
            Err(error) => {
                return Err(error);
            },
        };
        match self.check_octet_string(octets.as_slice(), start) {
            Ok(()) => Ok(octets),
            Err(error) => Err(error),
        }
    }

    /// Reads the octets of one octet string, before the parser's limits on
    /// octet strings apply.
    fn form(&mut self) -> (r: Result<Vec<u8>, Error>)
        requires
            old(self).wf(),
        ensures
            final(self).wf(),
            final(self).same_source(old(self)),
            octets_agree(
                r,
                spec_form(*old(self).parser, old(self).input@, old(self).offset as int),
                final(self).offset,
            ),
    {
        let start = self.offset;
        let first = match self.peek_required() {
            Ok(octet) => octet,
            Err(error) => {
                return Err(error);
            },
        };
        if is_digit(first) {
            let len = match self.decimal() {
                Ok(len) => len,
                Err(error) => {
                    return Err(error);
                },
            };
            proof {
                lemma_decimal_progress(self.input@, start as int, start as int, 0, 0);
            }
            self.after_length(start, len)
        } else if first == 0x22 {
            if let Err(error) = self.require_advanced(start) {
                return Err(error);
            }
            self.quoted_string(start, None)
        } else if first == 0x23 {
            if let Err(error) = self.require_advanced(start) {
                return Err(error);
            }
            if let Err(error) = self.require_hexadecimal(start) {
                return Err(error);
            }
            self.hexadecimal(start, None)
        } else if first == 0x7c {
            if let Err(error) = self.require_advanced(start) {
                return Err(error);
            }
            if let Err(error) = self.require_base64(start) {
                return Err(error);
            }
            self.base64_string(start, None)
        } else if is_token_start(first) {
            if let Err(error) = self.require_advanced(start) {
                return Err(error);
            }
            Ok(self.token())
        } else {
            Err(self.error(ErrorKind::UnexpectedOctet))
        }
    }

    /// Reads the form a length stands before, which the octet after its digits
    /// settles.
    fn after_length(&mut self, start: usize, len: usize) -> (r: Result<Vec<u8>, Error>)
        requires
            old(self).wf(),
        ensures
            final(self).wf(),
            final(self).same_source(old(self)),
            octets_agree(
                r,
                spec_after_length(
                    *old(self).parser,
                    old(self).input@,
                    start as int,
                    len as int,
                    old(self).offset as int,
                ),
                final(self).offset,
            ),
    {
        let next = match self.peek_required() {
            Ok(octet) => octet,
            Err(error) => {
                return Err(error);
            },
        };
        if next == 0x3a {
            self.offset = self.offset + 1;
            self.verbatim(len)
        } else if next == 0x22 {
            if let Err(error) = self.require_advanced(start) {
                return Err(error);
            }
            if let Err(error) = self.require_lengths(start) {
                return Err(error);
            }
            self.quoted_string(start, Some(len))
        } else if next == 0x23 {
            if let Err(error) = self.require_advanced(start) {
                return Err(error);
            }
            if let Err(error) = self.require_hexadecimal(start) {
                return Err(error);
            }
            if let Err(error) = self.require_lengths(start) {
                return Err(error);
            }
            self.hexadecimal(start, Some(len))
        } else if next == 0x7c {
            if let Err(error) = self.require_advanced(start) {
                return Err(error);
            }
            if let Err(error) = self.require_base64(start) {
                return Err(error);
            }
            if let Err(error) = self.require_lengths(start) {
                return Err(error);
            }
            self.base64_string(start, Some(len))
        } else {
            Err(self.error(ErrorKind::UnexpectedOctet))
        }
    }

    /// Reports a construct of the advanced representation where the parser was told to refuse one.
    fn require_advanced(&self, start: usize) -> (r: Result<(), Error>)
        ensures
            require_agrees(r, self.parser.advanced, ErrorKind::AdvancedNotAllowed, start as int),
    {
        if self.parser.advanced {
            Ok(())
        } else {
            Err(Error::new(ErrorKind::AdvancedNotAllowed, start))
        }
    }

    /// Reports a hexadecimal octet string where the parser was told to refuse one.
    fn require_hexadecimal(&self, start: usize) -> (r: Result<(), Error>)
        ensures
            require_agrees(r, self.parser.hexadecimal, ErrorKind::HexadecimalNotAllowed, start as int),
    {
        if self.parser.hexadecimal {
            Ok(())
        } else {
            Err(Error::new(ErrorKind::HexadecimalNotAllowed, start))
        }
    }

    /// Reports a base-64 octet string where the parser was told to refuse one.
    fn require_base64(&self, start: usize) -> (r: Result<(), Error>)
        ensures
            require_agrees(r, self.parser.base64, ErrorKind::Base64NotAllowed, start as int),
    {
        if self.parser.base64 {
            Ok(())
        } else {
            Err(Error::new(ErrorKind::Base64NotAllowed, start))
        }
    }

    /// Reports a length before a quoted, hexadecimal or base-64 octet string where the parser was told to refuse one.
    fn require_lengths(&self, start: usize) -> (r: Result<(), Error>)
        ensures
            require_agrees(r, self.parser.lengths, ErrorKind::LengthNotAllowed, start as int),
    {
        if self.parser.lengths {
            Ok(())
        } else {
            Err(Error::new(ErrorKind::LengthNotAllowed, start))
        }
    }

    /// Reads an octet string given as its length, a colon, and its octets
    /// (§4.1).
    pub fn verbatim(&mut self, len: usize) -> (r: Result<Vec<u8>, Error>)
        requires
            old(self).wf(),
        ensures
            final(self).wf(),
            final(self).same_source(old(self)),
            octets_agree(
                r,
                spec_verbatim(old(self).input@, old(self).offset as int, len as int),
                final(self).offset,
            ),
    {
        let end = match self.offset.checked_add(len) {
            Some(end) => end,
            None => {
                return Err(self.error(ErrorKind::LengthOverflow));
            },
        };
        // Nothing is taken on the strength of the length alone, so a length
        // that overstates what follows costs a comparison and no memory.
        if end > self.input.len() {
            return Err(Error::new(ErrorKind::UnexpectedEnd, self.input.len()));
        }
        let octets = crate::types::atom::copy_octets(slice_range(self.input, self.offset, end));
        self.offset = end;
        Ok(octets)
    }

    /// Reads an octet string given as hexadecimal digits between two `#`
    /// characters (§4.4).
    pub fn hexadecimal(&mut self, start: usize, declared: Option<usize>) -> (r: Result<
        Vec<u8>,
        Error,
    >)
        requires
            old(self).wf(),
            old(self).offset < old(self).input@.len(),
        ensures
            final(self).wf(),
            final(self).same_source(old(self)),
            octets_agree(
                r,
                spec_hexadecimal(
                    old(self).input@,
                    start as int,
                    declared_view(declared),
                    old(self).offset as int,
                ),
                final(self).offset,
            ),
    {
        let ghost target = spec_hexadecimal(
            self.input@,
            start as int,
            declared_view(declared),
            self.offset as int,
        );
        self.offset = self.offset + 1;
        let mut octets: Vec<u8> = Vec::new();
        let mut high: Option<u8> = None;
        loop
            invariant
                self.wf(),
                self.same_source(old(self)),
                high matches Some(h) ==> h < 16,
                spec_hexadecimal_from(
                    self.input@,
                    start as int,
                    declared_view(declared),
                    self.offset as int,
                    octets@,
                    high,
                ) == target,
                target == spec_hexadecimal(
                    old(self).input@,
                    start as int,
                    declared_view(declared),
                    old(self).offset as int,
                ),
            decreases self.input@.len() - self.offset,
        {
            let octet = match self.peek_required() {
                Ok(octet) => octet,
                Err(error) => {
                    return Err(error);
                },
            };
            self.offset = self.offset + 1;
            if octet == 0x23 {
                if high.is_some() {
                    return Err(Error::new(ErrorKind::OddHexDigits, start));
                }
                return match self.check_declared(declared, octets.len(), start) {
                    Err(error) => Err(error),
                    Ok(()) => Ok(octets),
                };
            }
            if is_whitespace(octet) {
                continue;
            }
            let value = match hex_value(octet) {
                Some(value) => value,
                None => {
                    return Err(Error::new(ErrorKind::InvalidHexDigit, self.offset - 1));
                },
            };
            match high {
                Some(first) => {
                    octets.push((first << 4u8) | value);
                    high = None;
                },
                None => {
                    high = Some(value);
                },
            }
        }
    }

    /// Reads an octet string given in base 64 between two `|` characters
    /// (§4.5).
    pub fn base64_string(&mut self, start: usize, declared: Option<usize>) -> (r: Result<
        Vec<u8>,
        Error,
    >)
        requires
            old(self).wf(),
            old(self).offset < old(self).input@.len(),
        ensures
            final(self).wf(),
            final(self).same_source(old(self)),
            octets_agree(
                r,
                spec_base64_string(
                    old(self).input@,
                    start as int,
                    declared_view(declared),
                    old(self).offset as int,
                ),
                final(self).offset,
            ),
    {
        self.offset = self.offset + 1;
        let end = match self.find(0x7c) {
            Ok(end) => end,
            Err(error) => {
                return Err(error);
            },
        };
        proof {
            lemma_find(self.input@, self.offset as int, 0x7c);
        }
        let octets = match decode(slice_range(self.input, self.offset, end)) {
            Ok(octets) => octets,
            Err(offset) => {
                proof {
                    assert(offset <= end - self.offset) by {
                        lemma_decode_offset(self.input@.subrange(self.offset as int, end as int));
                    }
                }
                return Err(Error::new(ErrorKind::InvalidBase64, self.offset + offset));
            },
        };
        self.offset = end + 1;
        match self.check_declared(declared, octets.len(), start) {
            Err(error) => Err(error),
            Ok(()) => Ok(octets),
        }
    }

    /// Reads an octet string given as itself (§4.3).
    pub fn token(&mut self) -> (r: Vec<u8>)
        requires
            old(self).wf(),
        ensures
            final(self).wf(),
            final(self).same_source(old(self)),
            (r@, final(self).offset as int) == spec_token(old(self).input@, old(self).offset as int),
    {
        let start = self.offset;
        while self.offset < self.input.len() && is_token(self.input[self.offset])
            invariant
                self.wf(),
                self.same_source(old(self)),
                start == old(self).offset,
                start <= self.offset,
                spec_token_end(self.input@, self.offset as int) == spec_token_end(
                    self.input@,
                    start as int,
                ),
            decreases self.input@.len() - self.offset,
        {
            self.offset = self.offset + 1;
        }
        crate::types::atom::copy_octets(slice_range(self.input, start, self.offset))
    }

    /// Reads a length, which §7 writes in decimal with no leading zero.
    pub fn decimal(&mut self) -> (r: Result<usize, Error>)
        requires
            old(self).wf(),
        ensures
            final(self).wf(),
            final(self).same_source(old(self)),
            match spec_length(old(self).input@, old(self).offset as int) {
                Ok((value, next)) => r == Ok::<usize, Error>(value as usize) && final(self).offset
                    == next,
                Err(failure) => r matches Err(e) && e@ == failure,
            },
    {
        let start = self.offset;
        let mut value: usize = 0;
        let mut digits: usize = 0;
        while self.offset < self.input.len() && is_digit(self.input[self.offset])
            invariant
                self.wf(),
                self.same_source(old(self)),
                start == old(self).offset,
                start <= self.offset,
                digits <= self.offset - start,
                spec_decimal_from(self.input@, start as int, self.offset as int, value as int, digits as int)
                    == spec_length(old(self).input@, old(self).offset as int),
            decreases self.input@.len() - self.offset,
        {
            if digits == 1 && value == 0 {
                return Err(Error::new(ErrorKind::LengthLeadingZero, start));
            }
            let digit = (self.input[self.offset] - 0x30) as usize;
            value = match value.checked_mul(10) {
                Some(shifted) => match shifted.checked_add(digit) {
                    Some(next) => next,
                    None => {
                        return Err(Error::new(ErrorKind::LengthOverflow, start));
                    },
                },
                None => {
                    return Err(Error::new(ErrorKind::LengthOverflow, start));
                },
            };
            digits = digits + 1;
            self.offset = self.offset + 1;
        }
        Ok(value)
    }

    /// Reports an octet string the parser was told to refuse.
    pub fn check_octet_string(&self, octets: &[u8], start: usize) -> (r: Result<(), Error>)
        ensures
            check_agrees(r, spec_check_octet_string(*self.parser, octets@, start as int)),
    {
        if octets.len() == 0 && !self.parser.empty_atoms {
            return Err(Error::new(ErrorKind::EmptyAtomNotAllowed, start));
        }
        if octets.len() > self.parser.max_atom_len {
            return Err(Error::new(ErrorKind::AtomTooLong, start));
        }
        Ok(())
    }
}

/// Where decoding fails lies within what was decoded.
pub proof fn lemma_decode_offset(input: Seq<u8>)
    ensures
        spec_decode(input) matches Err(offset) ==> 0 <= offset <= input.len(),
{
    crate::base64::lemma_decode_offset(input, 0, Seq::empty(), Seq::empty(), 0, 0, 0, false);
}

} // verus!
