//! Reading an octet string written between quotes (RFC 9804, §4.2).
//!
//! §4.2 writes text as itself between two `"` characters, and everything else
//! as a backslash escape. Seven control characters have an escape named by a
//! letter, four characters that would otherwise end or confuse the string have
//! one named by the character, and any octet at all may be named by three
//! octal digits or by `x` and two hexadecimal digits. A backslash before the
//! end of a line stands for nothing, and continues the string on the next.
//!
//! A length may precede the opening quote, stating how many octets the string
//! decodes to. Where one is given it has to agree with what was read.

use vstd::prelude::*;

use crate::decode::error::{Error, ErrorKind};
use crate::decode::reader::{
    check_agrees, octets_agree, spec_check_declared, Outcome, Reader,
};
use crate::syntax::{hex_value, spec_hex_value};

verus! {

/// The octet an escape named by a character stands for: one of the seven
/// letters §4.2 names control characters by, or one of the four characters
/// that stand for themselves.
pub open spec fn spec_simple_escape(octet: u8) -> Option<u8> {
    if octet == 0x61 {
        Some(0x07u8)
    } else if octet == 0x62 {
        Some(0x08u8)
    } else if octet == 0x74 {
        Some(0x09u8)
    } else if octet == 0x6e {
        Some(0x0au8)
    } else if octet == 0x76 {
        Some(0x0bu8)
    } else if octet == 0x66 {
        Some(0x0cu8)
    } else if octet == 0x72 {
        Some(0x0du8)
    } else if octet == 0x22 || octet == 0x27 || octet == 0x3f || octet == 0x5c {
        Some(octet)
    } else {
        None
    }
}

/// The two hexadecimal digits of an `x` escape, from `at` on, the escape's
/// backslash standing at `start`.
pub open spec fn spec_hexadecimal_escape(input: Seq<u8>, at: int, start: int) -> Outcome<u8> {
    if at < 0 || at >= input.len() {
        Err((ErrorKind::UnexpectedEnd, input.len() as int))
    } else {
        match spec_hex_value(input[at]) {
            None => Err((ErrorKind::InvalidEscape, start)),
            Some(high) => if at + 1 >= input.len() {
                Err((ErrorKind::UnexpectedEnd, input.len() as int))
            } else {
                match spec_hex_value(input[at + 1]) {
                    None => Err((ErrorKind::InvalidEscape, start)),
                    Some(low) => Ok(((high << 4u8) | low, at + 2)),
                }
            },
        }
    }
}

/// An octal digit.
pub open spec fn spec_is_octal(octet: u8) -> bool {
    0x30 <= octet <= 0x37
}

/// The rest of an escape naming an octet in three octal digits, the first of
/// them given, the other two from `at` on, the escape's backslash standing at
/// `start`. Three octal digits reach 511, and an octet stops at 255.
pub open spec fn spec_octal_escape(input: Seq<u8>, first: u8, at: int, start: int) -> Outcome<u8> {
    if at < 0 || at >= input.len() {
        Err((ErrorKind::UnexpectedEnd, input.len() as int))
    } else if !spec_is_octal(input[at]) {
        Err((ErrorKind::InvalidEscape, start))
    } else if at + 1 >= input.len() {
        Err((ErrorKind::UnexpectedEnd, input.len() as int))
    } else if !spec_is_octal(input[at + 1]) {
        Err((ErrorKind::InvalidEscape, start))
    } else {
        let value = (first - 0x30) * 64 + (input[at] - 0x30) * 8 + (input[at + 1] - 0x30);
        if value > 255 {
            Err((ErrorKind::InvalidEscape, start))
        } else {
            Ok((value as u8, at + 2))
        }
    }
}

/// What follows a backslash in a quoted string, from `at` on: the octet the
/// escape stands for, or nothing where the escape continues a line.
pub open spec fn spec_escape(input: Seq<u8>, at: int) -> Outcome<Option<u8>> {
    let start = at - 1;
    if at < 0 || at >= input.len() {
        Err((ErrorKind::UnexpectedEnd, input.len() as int))
    } else {
        let octet = input[at];
        let next = at + 1;
        if spec_simple_escape(octet) is Some {
            Ok((spec_simple_escape(octet), next))
        } else if octet == 0x78 {
            match spec_hexadecimal_escape(input, next, start) {
                Err(failure) => Err(failure),
                Ok((value, after)) => Ok((Some(value), after)),
            }
        } else if spec_is_octal(octet) {
            match spec_octal_escape(input, octet, next, start) {
                Err(failure) => Err(failure),
                Ok((value, after)) => Ok((Some(value), after)),
            }
        } else if octet == 0x0d || octet == 0x0a {
            // A carriage return and a line feed, in either order, continue the
            // line together rather than one after the other.
            let paired: u8 = if octet == 0x0d { 0x0a } else { 0x0d };
            if next < input.len() && input[next] == paired {
                Ok((None, next + 1))
            } else {
                Ok((None, next))
            }
        } else {
            Err((ErrorKind::InvalidEscape, start))
        }
    }
}

/// An escape moves the reader past what it read, and not past the end.
pub proof fn lemma_escape_progress(input: Seq<u8>, at: int)
    ensures
        spec_escape(input, at) matches Ok((_, next)) ==> at < next <= input.len(),
{
}

/// The octets an optional octet makes.
pub open spec fn optional_octet(octet: Option<u8>) -> Seq<u8> {
    match octet {
        Some(o) => seq![o],
        None => Seq::empty(),
    }
}

/// The rest of a quoted string from `position` on, `octets` read so far, the
/// string beginning at `start` with the length `declared` before it, if any.
///
/// Printable characters stand as themselves, and every other octet only in an
/// escape.
pub open spec fn spec_quoted_from(
    input: Seq<u8>,
    start: int,
    declared: Option<int>,
    position: int,
    octets: Seq<u8>,
) -> Outcome<Seq<u8>>
    decreases input.len() - position,
{
    if position < 0 || position >= input.len() {
        Err((ErrorKind::UnexpectedEnd, input.len() as int))
    } else {
        let octet = input[position];
        if octet == 0x22 {
            match spec_check_declared(declared, octets.len() as int, start) {
                Err(failure) => Err(failure),
                Ok(()) => Ok((octets, position + 1)),
            }
        } else if octet == 0x5c {
            match spec_escape(input, position + 1) {
                Err(failure) => Err(failure),
                Ok((escaped, next)) => {
                    proof {
                        lemma_escape_progress(input, position + 1);
                    }
                    spec_quoted_from(input, start, declared, next, octets + optional_octet(escaped))
                },
            }
        } else if 0x20 <= octet <= 0x7e {
            spec_quoted_from(input, start, declared, position + 1, octets.push(octet))
        } else {
            Err((ErrorKind::UnexpectedOctet, position))
        }
    }
}

/// A quoted string whose opening quote stands at `position`.
pub open spec fn spec_quoted(input: Seq<u8>, start: int, declared: Option<int>, position: int) -> Outcome<Seq<u8>> {
    spec_quoted_from(input, start, declared, position + 1, Seq::empty())
}

/// A quoted string ends past where it began, and not past the end.
pub proof fn lemma_quoted_progress(
    input: Seq<u8>,
    start: int,
    declared: Option<int>,
    position: int,
    octets: Seq<u8>,
)
    ensures
        spec_quoted_from(input, start, declared, position, octets) matches Ok((_, next))
            ==> position < next <= input.len(),
    decreases input.len() - position,
{
    if 0 <= position < input.len() {
        let octet = input[position];
        if octet == 0x5c {
            lemma_escape_progress(input, position + 1);
            if let Ok((escaped, next)) = spec_escape(input, position + 1) {
                lemma_quoted_progress(input, start, declared, next, octets + optional_octet(escaped));
            }
        } else if 0x20 <= octet <= 0x7e && octet != 0x22 {
            lemma_quoted_progress(input, start, declared, position + 1, octets.push(octet));
        }
    }
}

/// The optional length of a form, as the specification reads it.
pub open spec fn declared_view(declared: Option<usize>) -> Option<int> {
    match declared {
        Some(len) => Some(len as int),
        None => None,
    }
}

impl<'a> Reader<'a> {
    /// Reads an octet string given between quotes, escapes and all (§4.2).
    pub fn quoted_string(&mut self, start: usize, declared: Option<usize>) -> (r: Result<
        Vec<u8>,
        Error,
    >)
        requires
            old(self).wf(),
            old(self).offset < old(self).input@.len(),
        ensures
            final(self).wf(),
            final(self).same_source(old(self)),
            octets_agree(
                r,
                spec_quoted(
                    old(self).input@,
                    start as int,
                    declared_view(declared),
                    old(self).offset as int,
                ),
                final(self).offset,
            ),
    {
        let ghost target = spec_quoted(
            self.input@,
            start as int,
            declared_view(declared),
            self.offset as int,
        );
        self.offset = self.offset + 1;
        let mut octets: Vec<u8> = Vec::new();
        loop
            invariant
                self.wf(),
                self.same_source(old(self)),
                spec_quoted_from(
                    self.input@,
                    start as int,
                    declared_view(declared),
                    self.offset as int,
                    octets@,
                ) == target,
                target == spec_quoted(
                    old(self).input@,
                    start as int,
                    declared_view(declared),
                    old(self).offset as int,
                ),
            decreases self.input@.len() - self.offset,
        {
            let octet = match self.peek_required() {
                Ok(value) => value,
                Err(error) => {
                    return Err(error);
                },
            };
            self.offset = self.offset + 1;
            if octet == 0x22 {
                let checked = self.check_declared(declared, octets.len(), start);
                return match checked {
                    Err(error) => Err(error),
                    Ok(()) => Ok(octets),
                };
            } else if octet == 0x5c {
                proof {
                    lemma_escape_progress(self.input@, self.offset as int);
                }
                let escaped = match self.escape() {
                    Ok(value) => value,
                    Err(error) => {
                        return Err(error);
                    },
                };
                let ghost before = octets@;
                if let Some(escaped) = escaped {
                    octets.push(escaped);
                }
                assert(octets@ =~= before + optional_octet(escaped));
            } else if 0x20 <= octet && octet <= 0x7e {
                // §4.2 admits printable characters as themselves, and leaves
                // every other octet to an escape.
                octets.push(octet);
            } else {
                return Err(Error::new(ErrorKind::UnexpectedOctet, self.offset - 1));
            }
        }
    }

    /// Reads what follows a backslash in a quoted string (§4.2).
    ///
    /// Returns nothing where the escape is one of those that continue a line,
    /// which stand for no octet at all.
    pub fn escape(&mut self) -> (r: Result<Option<u8>, Error>)
        requires
            old(self).wf(),
            old(self).offset >= 1,
        ensures
            final(self).wf(),
            final(self).same_source(old(self)),
            match spec_escape(old(self).input@, old(self).offset as int) {
                Ok((escaped, next)) => r == Ok::<Option<u8>, Error>(escaped)
                    && final(self).offset == next,
                Err(failure) => r matches Err(e) && e@ == failure,
            },
    {
        let start = self.offset - 1;
        let octet = match self.peek_required() {
            Ok(value) => value,
            Err(error) => {
                return Err(error);
            },
        };
        self.offset = self.offset + 1;
        let escaped = if octet == 0x61 {
            0x07
        } else if octet == 0x62 {
            0x08
        } else if octet == 0x74 {
            0x09
        } else if octet == 0x6e {
            0x0a
        } else if octet == 0x76 {
            0x0b
        } else if octet == 0x66 {
            0x0c
        } else if octet == 0x72 {
            0x0d
        } else if octet == 0x22 || octet == 0x27 || octet == 0x3f || octet == 0x5c {
            octet
        } else if octet == 0x78 {
            match self.hexadecimal_escape(start) {
                Ok(value) => value,
                Err(error) => {
                    return Err(error);
                },
            }
        } else if 0x30 <= octet && octet <= 0x37 {
            match self.octal_escape(octet, start) {
                Ok(value) => value,
                Err(error) => {
                    return Err(error);
                },
            }
        } else if octet == 0x0d || octet == 0x0a {
            // A carriage return and a line feed, in either order, continue the
            // line together rather than one after the other.
            let paired: u8 = if octet == 0x0d { 0x0a } else { 0x0d };
            if self.peek() == Some(paired) {
                self.offset = self.offset + 1;
            }
            return Ok(None);
        } else {
            return Err(Error::new(ErrorKind::InvalidEscape, start));
        };
        Ok(Some(escaped))
    }

    /// Reads the two digits of an escape that names an octet in hexadecimal.
    pub fn hexadecimal_escape(&mut self, start: usize) -> (r: Result<u8, Error>)
        requires
            old(self).wf(),
        ensures
            final(self).wf(),
            final(self).same_source(old(self)),
            match spec_hexadecimal_escape(old(self).input@, old(self).offset as int, start as int) {
                Ok((value, next)) => r == Ok::<u8, Error>(value) && final(self).offset == next,
                Err(failure) => r matches Err(e) && e@ == failure,
            },
    {
        let first_digit = match self.peek_required() {
            Ok(value) => value,
            Err(error) => {
                return Err(error);
            },
        };
        let high = match hex_value(first_digit) {
            Some(digit) => digit,
            None => {
                return Err(Error::new(ErrorKind::InvalidEscape, start));
            },
        };
        self.offset = self.offset + 1;
        let second_digit = match self.peek_required() {
            Ok(value) => value,
            Err(error) => {
                return Err(error);
            },
        };
        let low = match hex_value(second_digit) {
            Some(digit) => digit,
            None => {
                return Err(Error::new(ErrorKind::InvalidEscape, start));
            },
        };
        self.offset = self.offset + 1;
        Ok((high << 4u8) | low)
    }

    /// Reads the rest of an escape that names an octet in octal, given its
    /// first digit.
    pub fn octal_escape(&mut self, first: u8, start: usize) -> (r: Result<u8, Error>)
        requires
            old(self).wf(),
            0x30 <= first <= 0x37,
        ensures
            final(self).wf(),
            final(self).same_source(old(self)),
            match spec_octal_escape(old(self).input@, first, old(self).offset as int, start as int) {
                Ok((value, next)) => r == Ok::<u8, Error>(value) && final(self).offset == next,
                Err(failure) => r matches Err(e) && e@ == failure,
            },
    {
        let middle = match self.peek_required() {
            Ok(value) => value,
            Err(error) => {
                return Err(error);
            },
        };
        if !(0x30 <= middle && middle <= 0x37) {
            return Err(Error::new(ErrorKind::InvalidEscape, start));
        }
        self.offset = self.offset + 1;
        let last = match self.peek_required() {
            Ok(value) => value,
            Err(error) => {
                return Err(error);
            },
        };
        if !(0x30 <= last && last <= 0x37) {
            return Err(Error::new(ErrorKind::InvalidEscape, start));
        }
        self.offset = self.offset + 1;
        let value: u32 = ((first - 0x30) as u32) * 64 + ((middle - 0x30) as u32) * 8 + ((last
            - 0x30) as u32);
        if value > 255 {
            return Err(Error::new(ErrorKind::InvalidEscape, start));
        }
        Ok(value as u8)
    }
}

} // verus!
