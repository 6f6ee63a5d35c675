//! One pass over one input.
//!
//! A [`Reader`] holds the octets, how far into them it has gone, and the
//! [`Parser`] that says what it will accept. This module reads what §7.1 calls
//! a value, which is a list or an octet string with the display hint that may
//! precede it. The forms an octet string itself takes are read in
//! [`octet_string`].
//!
//! Nothing here recurses. A list still open is held on a stack with the offset
//! it opened at, and is built once its last element is in hand, so input that
//! nests deeply costs heap rather than stack.

pub mod octet_string;
pub mod quoted;

use vstd::prelude::*;

use crate::base64::{decode, slice_range, spec_decode};
use crate::decode::error::{Error, ErrorKind, Failure};
use crate::decode::parser::{spec_within_transport, Parser};
use crate::decode::reader::octet_string::{
    lemma_decode_offset, lemma_simple_string_progress, spec_simple_string,
};
use crate::syntax::{is_whitespace, spec_is_whitespace};
use crate::types::atom::{Atom, AtomV};
use crate::types::sexp::{lemma_list_view, lemma_views_push, views, Sexp, SexpV};

verus! {

/// What reading one construct comes to: the value read and the offset just
/// past it, or the failure that stopped it.
pub type Outcome<T> = Result<(T, int), Failure>;

/// Where the reader stands after passing over whitespace from `offset`, where
/// the representation being read has any.
///
/// The canonical representation has none, so a parser restricted to it stays
/// where it is and lets the whitespace be refused where it stands.
pub open spec fn spec_skip_whitespace(parser: Parser, input: Seq<u8>, offset: int) -> int
    decreases input.len() - offset,
{
    if parser.advanced && 0 <= offset < input.len() && spec_is_whitespace(input[offset]) {
        spec_skip_whitespace(parser, input, offset + 1)
    } else {
        offset
    }
}

/// Passing over whitespace moves forward, and not past the end.
pub proof fn lemma_skip_whitespace(parser: Parser, input: Seq<u8>, offset: int)
    ensures
        spec_skip_whitespace(parser, input, offset) >= offset,
        0 <= offset <= input.len() ==> spec_skip_whitespace(parser, input, offset)
            <= input.len(),
        !parser.advanced ==> spec_skip_whitespace(parser, input, offset) == offset,
        ({
            let at = spec_skip_whitespace(parser, input, offset);
            0 <= at < input.len() ==> !(parser.advanced && spec_is_whitespace(input[at]))
        }),
    decreases input.len() - offset,
{
    if parser.advanced && 0 <= offset < input.len() && spec_is_whitespace(input[offset]) {
        lemma_skip_whitespace(parser, input, offset + 1);
    }
}

/// The offset of the first `octet` at or after `from`, if there is one.
pub open spec fn spec_find(input: Seq<u8>, from: int, octet: u8) -> Option<int>
    decreases input.len() - from,
{
    if from < 0 || from >= input.len() {
        None
    } else if input[from] == octet {
        Some(from)
    } else {
        spec_find(input, from + 1, octet)
    }
}

/// What is found lies at or after where the search began, within the input.
pub proof fn lemma_find(input: Seq<u8>, from: int, octet: u8)
    ensures
        spec_find(input, from, octet) matches Some(at) ==> from <= at < input.len()
            && input[at] == octet && forall|i: int| from <= i < at ==> input[i] != octet,
        spec_find(input, from, octet) is None ==> forall|i: int|
            0 <= from <= i < input.len() ==> input[i] != octet,
    decreases input.len() - from,
{
    if 0 <= from < input.len() && input[from] != octet {
        lemma_find(input, from + 1, octet);
    }
}

/// A length given before a form has to agree with what the form decodes to.
pub open spec fn spec_check_declared(declared: Option<int>, actual: int, start: int) -> Result<
    (),
    Failure,
> {
    match declared {
        Some(len) => if len != actual {
            Err((ErrorKind::LengthMismatch, start))
        } else {
            Ok(())
        },
        None => Ok(()),
    }
}

/// A list the parser was told to refuse, reported at the parenthesis that
/// opened it.
pub open spec fn spec_check_list(parser: Parser, items: Seq<SexpV>, start: int) -> Result<
    (),
    Failure,
> {
    if items.len() == 0 && !parser.empty_lists {
        Err((ErrorKind::EmptyListNotAllowed, start))
    } else if !parser.list_as_first_element && items.len() > 0 && items[0] is List {
        Err((ErrorKind::ListAsFirstElementNotAllowed, start))
    } else {
        Ok(())
    }
}

/// The exec result of a check is the one the specification gives.
pub open spec fn check_agrees(r: Result<(), Error>, s: Result<(), Failure>) -> bool {
    match s {
        Ok(()) => r is Ok,
        Err(failure) => r matches Err(e) && e@ == failure,
    }
}

/// The exec result of reading octets is the one the specification gives, with
/// the reader left just past them.
pub open spec fn octets_agree(r: Result<Vec<u8>, Error>, s: Outcome<Seq<u8>>, offset: usize) -> bool {
    match s {
        Ok((octets, next)) => r matches Ok(v) && v@ == octets && offset == next,
        Err(failure) => r matches Err(e) && e@ == failure,
    }
}

/// A reader part way through one input.
pub struct Reader<'a> {
    pub parser: &'a Parser,
    pub input: &'a [u8],
    pub offset: usize,
}

impl<'a> Reader<'a> {
    /// The reader stands within the input.
    pub open spec fn wf(&self) -> bool {
        &&& self.offset <= self.input@.len()
        &&& self.input@.len() <= usize::MAX
    }

    /// Two readers over the same input with the same parser.
    pub open spec fn same_source(&self, other: &Reader<'a>) -> bool {
        &&& self.parser == other.parser
        &&& self.input == other.input
    }

    /// Creates a reader over the whole of `input`.
    pub fn new(parser: &'a Parser, input: &'a [u8]) -> (r: Self)
        ensures
            r.parser == parser,
            r.input == input,
            r.offset == 0,
            r.wf(),
    {
        let _len = input.len();
        Reader { parser, input, offset: 0 }
    }

    /// Returns how far into the input the reader has gone, in octets.
    pub fn offset(&self) -> (r: usize)
        ensures
            r == self.offset,
    {
        self.offset
    }

    /// Passes over whitespace, where the representation being read has any.
    pub fn skip_whitespace(&mut self)
        requires
            old(self).wf(),
        ensures
            final(self).wf(),
            final(self).same_source(old(self)),
            final(self).offset == spec_skip_whitespace(
                *old(self).parser,
                old(self).input@,
                old(self).offset as int,
            ),
    {
        proof {
            lemma_skip_whitespace(*self.parser, self.input@, self.offset as int);
        }
        if !self.parser.advanced {
            return;
        }
        while self.offset < self.input.len() && is_whitespace(self.input[self.offset])
            invariant
                self.wf(),
                self.same_source(old(self)),
                self.parser.advanced,
                spec_skip_whitespace(*self.parser, self.input@, self.offset as int)
                    == spec_skip_whitespace(
                    *old(self).parser,
                    old(self).input@,
                    old(self).offset as int,
                ),
            decreases self.input@.len() - self.offset,
        {
            self.offset = self.offset + 1;
        }
    }

    /// Returns the offset of the next `octet`, or reports that the input ended
    /// before one appeared.
    pub fn find(&self, octet: u8) -> (r: Result<usize, Error>)
        requires
            self.wf(),
        ensures
            match spec_find(self.input@, self.offset as int, octet) {
                Some(at) => r == Ok::<usize, Error>(at as usize),
                None => r matches Err(e) && e@ == (ErrorKind::UnexpectedEnd, self.input@.len()
                    as int),
            },
    {
        let mut at = self.offset;
        while at < self.input.len()
            invariant
                self.offset <= at <= self.input@.len(),
                spec_find(self.input@, at as int, octet) == spec_find(
                    self.input@,
                    self.offset as int,
                    octet,
                ),
            decreases self.input@.len() - at,
        {
            if self.input[at] == octet {
                return Ok(at);
            }
            at = at + 1;
        }
        Err(Error::new(ErrorKind::UnexpectedEnd, self.input.len()))
    }

    /// Returns the octet at the offset, if the input reaches that far.
    pub fn peek(&self) -> (r: Option<u8>)
        ensures
            r == if self.offset < self.input@.len() {
                Some(self.input@[self.offset as int])
            } else {
                None
            },
    {
        if self.offset < self.input.len() {
            Some(self.input[self.offset])
        } else {
            None
        }
    }

    /// Returns the octet at the offset, or reports that the input ended.
    pub fn peek_required(&self) -> (r: Result<u8, Error>)
        ensures
            if self.offset < self.input@.len() {
                r == Ok::<u8, Error>(self.input@[self.offset as int])
            } else {
                r matches Err(e) && e@ == (ErrorKind::UnexpectedEnd, self.input@.len() as int)
            },
    {
        if self.offset < self.input.len() {
            Ok(self.input[self.offset])
        } else {
            Err(Error::new(ErrorKind::UnexpectedEnd, self.input.len()))
        }
    }

    /// Creates an error at the offset the reader stands on.
    pub fn error(&self, kind: ErrorKind) -> (r: Error)
        ensures
            r@ == (kind, self.offset as int),
    {
        Error::new(kind, self.offset)
    }

    /// Reports a length that disagrees with the octets it counts.
    ///
    /// §4.2, §4.4 and §4.5 allow a length before the form they describe, which
    /// states in advance how many octets it decodes to.
    pub fn check_declared(&self, declared: Option<usize>, actual: usize, start: usize) -> (r:
        Result<(), Error>)
        ensures
            check_agrees(
                r,
                spec_check_declared(
                    match declared {
                        Some(len) => Some(len as int),
                        None => None,
                    },
                    actual as int,
                    start as int,
                ),
            ),
    {
        match declared {
            Some(len) => {
                if len != actual {
                    Err(Error::new(ErrorKind::LengthMismatch, start))
                } else {
                    Ok(())
                }
            },
            None => Ok(()),
        }
    }

    /// Reports a list the parser was told to refuse.
    pub fn check_list(&self, items: &[Sexp], start: usize) -> (r: Result<(), Error>)
        ensures
            check_agrees(r, spec_check_list(*self.parser, views(items@), start as int)),
    {
        if items.len() == 0 && !self.parser.empty_lists {
            return Err(Error::new(ErrorKind::EmptyListNotAllowed, start));
        }
        if !self.parser.list_as_first_element && items.len() > 0 && items[0].is_list() {
            return Err(Error::new(ErrorKind::ListAsFirstElementNotAllowed, start));
        }
        Ok(())
    }
}

/// A display hint whose `[` stands at `position` (§4.6): the octet string
/// within the brackets, and where the reader stands past the `]` and any
/// whitespace after it.
pub open spec fn spec_display_hint(parser: Parser, input: Seq<u8>, position: int) -> Outcome<
    Seq<u8>,
> {
    if !parser.hints {
        Err((ErrorKind::HintNotAllowed, position))
    } else {
        let inner = spec_skip_whitespace(parser, input, position + 1);
        match spec_simple_string(parser, input, inner) {
            Err(failure) => Err(failure),
            Ok((hint, after)) => {
                let close = spec_skip_whitespace(parser, input, after);
                if close < 0 || close >= input.len() {
                    Err((ErrorKind::UnexpectedEnd, input.len() as int))
                } else if input[close] != 0x5d {
                    Err((ErrorKind::UnexpectedOctet, close))
                } else {
                    Ok((hint, spec_skip_whitespace(parser, input, close + 1)))
                }
            },
        }
    }
}

/// One octet string at `position`, with the display hint before it if there
/// is one. A display hint may precede only an octet string.
pub open spec fn spec_string(parser: Parser, input: Seq<u8>, position: int) -> Outcome<AtomV> {
    if 0 <= position < input.len() && input[position] == 0x5b {
        match spec_display_hint(parser, input, position) {
            Err(failure) => Err(failure),
            Ok((hint, after)) => if 0 <= after < input.len() && input[after] == 0x28 {
                Err((ErrorKind::HintOnList, after))
            } else {
                match spec_simple_string(parser, input, after) {
                    Err(failure) => Err(failure),
                    Ok((data, next)) => Ok((AtomV { data, hint: Some(hint) }, next)),
                }
            },
        }
    } else {
        match spec_simple_string(parser, input, position) {
            Err(failure) => Err(failure),
            Ok((data, next)) => Ok((AtomV { data, hint: None }, next)),
        }
    }
}

/// An octet string with its hint ends past where it began, within the input.
pub proof fn lemma_string_progress(parser: Parser, input: Seq<u8>, position: int)
    requires
        0 <= position <= input.len(),
    ensures
        spec_string(parser, input, position) matches Ok((_, next)) ==> position < next
            <= input.len(),
{
    if 0 <= position < input.len() && input[position] == 0x5b {
        lemma_skip_whitespace(parser, input, position + 1);
        let inner = spec_skip_whitespace(parser, input, position + 1);
        lemma_simple_string_progress(parser, input, inner);
        if let Ok((hint, after)) = spec_simple_string(parser, input, inner) {
            lemma_skip_whitespace(parser, input, after);
            let close = spec_skip_whitespace(parser, input, after);
            lemma_skip_whitespace(parser, input, close + 1);
            if let Ok((_, after_hint)) = spec_display_hint(parser, input, position) {
                lemma_simple_string_progress(parser, input, after_hint);
            }
        }
    } else {
        lemma_simple_string_progress(parser, input, position);
    }
}

/// A list still open: the offset of the parenthesis that opened it, and the
/// elements read so far.
pub type OpenList = (int, Seq<SexpV>);

/// Reading goes on from `offset` with the lists in `open` still open, the
/// innermost last, until the outermost value is complete.
///
/// Each step reads one parenthesis or one octet string. An opening
/// parenthesis opens a list, unless as many are open as the parser allows. A
/// closing parenthesis closes the innermost, which the parser may refuse as
/// empty or as beginning with a list. A value completed within a list becomes
/// its last element, and one completed with no list open is the result.
pub open spec fn spec_run(parser: Parser, input: Seq<u8>, open: Seq<OpenList>, offset: int) -> Outcome<SexpV>
    decreases input.len() - offset,
{
    let at = spec_skip_whitespace(parser, input, offset);
    if at < 0 || at >= input.len() {
        Err((ErrorKind::UnexpectedEnd, input.len() as int))
    } else if input[at] == 0x28 {
        if open.len() >= parser.max_depth {
            Err((ErrorKind::TooDeep, at))
        } else {
            proof {
                lemma_skip_whitespace(parser, input, offset);
            }
            spec_run(parser, input, open.push((at, Seq::empty())), at + 1)
        }
    } else {
        let step: Result<(SexpV, Seq<OpenList>, int), Failure> = if input[at] == 0x29 {
            if open.len() == 0 {
                Err((ErrorKind::UnmatchedParenthesis, at))
            } else {
                match spec_check_list(parser, open.last().1, open.last().0) {
                    Err(failure) => Err(failure),
                    Ok(()) => Ok((SexpV::List(open.last().1), open.drop_last(), at + 1)),
                }
            }
        } else {
            match spec_string(parser, input, at) {
                Err(failure) => Err(failure),
                Ok((atom, next)) => Ok((SexpV::Atom(atom), open, next)),
            }
        };
        match step {
            Err(failure) => Err(failure),
            Ok((value, rest, next)) => if rest.len() == 0 {
                Ok((value, next))
            } else {
                proof {
                    lemma_skip_whitespace(parser, input, offset);
                    lemma_string_progress(parser, input, at);
                }
                let parent = rest.last();
                spec_run(
                    parser,
                    input,
                    rest.drop_last().push((parent.0, parent.1.push(value))),
                    next,
                )
            },
        }
    }
}

/// One value, a list or an octet string, read from `offset` (§7.1).
pub open spec fn spec_value(parser: Parser, input: Seq<u8>, offset: int) -> Outcome<SexpV> {
    spec_run(parser, input, Seq::empty(), offset)
}

/// A whole S-expression in the basic transport representation, whose `{`
/// stands at `position` (§6.1): a canonical representation in base 64,
/// read by the same parser with only the canonical representation allowed.
/// A failure within what the braces hold is reported at the brace.
pub open spec fn spec_transport(parser: Parser, input: Seq<u8>, position: int) -> Outcome<SexpV>
    decreases (if parser.transport {
        1int
    } else {
        0int
    }), 0int,
{
    if !parser.transport {
        Err((ErrorKind::TransportNotAllowed, position))
    } else {
        let from = position + 1;
        match spec_find(input, from, 0x7d) {
            None => Err((ErrorKind::UnexpectedEnd, input.len() as int)),
            Some(end) => match spec_decode(input.subrange(from, end)) {
                Err(offset) => Err((ErrorKind::InvalidBase64, from + offset)),
                Ok(octets) => match spec_parse(spec_within_transport(parser), octets) {
                    Err(failure) => Err((failure.0, position)),
                    Ok(value) => Ok((value, end + 1)),
                },
            },
        }
    }
}

/// One S-expression from `offset`, in whichever representation it is written.
pub open spec fn spec_sexp(parser: Parser, input: Seq<u8>, offset: int) -> Outcome<SexpV>
    decreases (if parser.transport {
        1int
    } else {
        0int
    }), 1int,
{
    let at = spec_skip_whitespace(parser, input, offset);
    if 0 <= at < input.len() && input[at] == 0x7b {
        spec_transport(parser, input, at)
    } else {
        spec_value(parser, input, at)
    }
}

/// One S-expression, which is the whole of `input`, whitespace before and
/// after accepted where the advanced representation is. Input longer than the
/// parser allows is refused unexamined, and octets left over after the
/// S-expression are refused where they begin.
pub open spec fn spec_parse(parser: Parser, input: Seq<u8>) -> Result<SexpV, Failure>
    decreases (if parser.transport {
        1int
    } else {
        0int
    }), 2int,
{
    if input.len() > parser.max_input_len {
        Err((ErrorKind::InputTooLong, parser.max_input_len as int))
    } else {
        match spec_sexp(parser, input, 0) {
            Err(failure) => Err(failure),
            Ok((value, next)) => {
                let end = spec_skip_whitespace(parser, input, next);
                if end < input.len() {
                    Err((ErrorKind::TrailingOctets, end))
                } else {
                    Ok(value)
                }
            },
        }
    }
}

/// One S-expression from the start of `input`, and how many octets reading it
/// took; what follows is not examined.
pub open spec fn spec_parse_prefix(parser: Parser, input: Seq<u8>) -> Outcome<SexpV> {
    if input.len() > parser.max_input_len {
        Err((ErrorKind::InputTooLong, parser.max_input_len as int))
    } else {
        spec_sexp(parser, input, 0)
    }
}

/// The exec result of reading an S-expression is the one the specification
/// gives, with the reader left just past it.
pub open spec fn sexp_agrees(r: Result<Sexp, Error>, s: Outcome<SexpV>, offset: usize) -> bool {
    match s {
        Ok((value, next)) => r matches Ok(v) && v@ == value && offset == next,
        Err(failure) => r matches Err(e) && e@ == failure,
    }
}

/// The exec result of a parse is the one the specification gives.
pub open spec fn parse_agrees(r: Result<Sexp, Error>, s: Result<SexpV, Failure>) -> bool {
    match s {
        Ok(value) => r matches Ok(v) && v@ == value,
        Err(failure) => r matches Err(e) && e@ == failure,
    }
}

/// The lists still open, as the specification reads them.
pub open spec fn open_view(open: Seq<(usize, Vec<Sexp>)>) -> Seq<OpenList> {
    Seq::new(open.len(), |i: int| (open[i].0 as int, views(open[i].1@)))
}

impl<'a> Reader<'a> {
    /// Reads one S-expression, in whichever representation it is written.
    pub fn sexp(&mut self) -> (r: Result<Sexp, Error>)
        requires
            old(self).wf(),
        ensures
            final(self).wf(),
            final(self).same_source(old(self)),
            sexp_agrees(
                r,
                spec_sexp(*old(self).parser, old(self).input@, old(self).offset as int),
                final(self).offset,
            ),
        decreases (if old(self).parser.transport {
            1int
        } else {
            0int
        }), 1int,
    {
        self.skip_whitespace();
        if self.peek() == Some(0x7b) {
            return self.transport();
        }
        self.value()
    }

    /// Reads a whole S-expression encoded in base 64 between braces (§6.1).
    ///
    /// What the braces hold is a canonical representation, so it is read by a
    /// parser restricted to that, carrying every other restriction from the
    /// parser that reached the braces.
    pub fn transport(&mut self) -> (r: Result<Sexp, Error>)
        requires
            old(self).wf(),
            old(self).offset < old(self).input@.len(),
        ensures
            final(self).wf(),
            final(self).same_source(old(self)),
            sexp_agrees(
                r,
                spec_transport(*old(self).parser, old(self).input@, old(self).offset as int),
                final(self).offset,
            ),
        decreases (if old(self).parser.transport {
            1int
        } else {
            0int
        }), 0int,
    {
        let start = self.offset;
        if !self.parser.transport {
            return Err(self.error(ErrorKind::TransportNotAllowed));
        }
        self.offset = self.offset + 1;
        let end = match self.find(0x7d) {
            Ok(end) => end,
            Err(error) => {
                return Err(error);
            },
        };
        proof {
            lemma_find(self.input@, self.offset as int, 0x7d);
        }
        let octets = match decode(slice_range(self.input, self.offset, end)) {
            Ok(octets) => octets,
            Err(offset) => {
                proof {
                    lemma_decode_offset(self.input@.subrange(self.offset as int, end as int));
                }
                return Err(Error::new(ErrorKind::InvalidBase64, self.offset + offset));
            },
        };
        self.offset = end + 1;
        // The octets inside the braces are the result of decoding and appear
        // at no offset of the input, so a failure among them is reported where
        // the braces are.
        let inner = self.parser.within_transport();
        match inner.parse(octets.as_slice()) {
            Ok(sexp) => Ok(sexp),
            Err(error) => Err(Error::new(error.kind(), start)),
        }
    }

    /// Reads one S-expression, without recursing into its lists.
    #[verifier::rlimit(60)]
    pub fn value(&mut self) -> (r: Result<Sexp, Error>)
        requires
            old(self).wf(),
        ensures
            final(self).wf(),
            final(self).same_source(old(self)),
            sexp_agrees(
                r,
                spec_value(*old(self).parser, old(self).input@, old(self).offset as int),
                final(self).offset,
            ),
    {
        let ghost target = spec_value(*self.parser, self.input@, self.offset as int);
        let mut open: Vec<(usize, Vec<Sexp>)> = Vec::new();
        proof {
            assert(open_view(open@) =~= Seq::<OpenList>::empty());
        }
        loop
            invariant
                self.wf(),
                self.same_source(old(self)),
                target == spec_value(*old(self).parser, old(self).input@, old(self).offset as int),
                spec_run(*self.parser, self.input@, open_view(open@), self.offset as int) == target,
            decreases self.input@.len() - self.offset,
        {
            let ghost before = self.offset as int;
            let ghost open_before = open_view(open@);
            proof {
                lemma_skip_whitespace(*self.parser, self.input@, before);
            }
            self.skip_whitespace();
            let octet = match self.peek_required() {
                Ok(octet) => octet,
                Err(error) => {
                    return Err(error);
                },
            };
            let ghost at = self.offset as int;
            let ghost mut rest: Seq<OpenList> = open_before;
            let value = if octet == 0x28 {
                let start = self.offset;
                if open.len() >= self.parser.max_depth {
                    return Err(Error::new(ErrorKind::TooDeep, start));
                }
                self.offset = self.offset + 1;
                let items: Vec<Sexp> = Vec::new();
                proof {
                    assert(views(items@) =~= Seq::<SexpV>::empty());
                }
                open.push((start, items));
                proof {
                    assert(open_view(open@) =~= open_before.push((start as int, Seq::empty())));
                }
                continue;
            } else if octet == 0x29 {
                match open.pop() {
                    None => {
                        return Err(self.error(ErrorKind::UnmatchedParenthesis));
                    },
                    Some((start, items)) => {
                        proof {
                            assert(open_view(open@) =~= open_before.drop_last());
                            rest = open_before.drop_last();
                            assert(open_before.last() == (start as int, views(items@)));
                        }
                        self.offset = self.offset + 1;
                        match self.check_list(items.as_slice(), start) {
                            Ok(()) => {},
                            Err(error) => {
                                return Err(error);
                            },
                        }
                        proof {
                            lemma_list_view(items);
                        }
                        Sexp::List(items)
                    },
                }
            } else {
                proof {
                    lemma_string_progress(*self.parser, self.input@, self.offset as int);
                }
                match self.string() {
                    Ok(atom) => Sexp::Atom(atom),
                    Err(error) => {
                        return Err(error);
                    },
                }
            };
            proof {
                assert(rest == open_view(open@));
                assert(spec_run(*self.parser, self.input@, open_before, before) == if rest.len()
                    == 0 {
                    Ok::<(SexpV, int), Failure>((value@, self.offset as int))
                } else {
                    spec_run(
                        *self.parser,
                        self.input@,
                        rest.drop_last().push((rest.last().0, rest.last().1.push(value@))),
                        self.offset as int,
                    )
                });
            }
            if open.len() == 0 {
                return Ok(value);
            }
            let (start, mut parent) = open.pop().unwrap();
            let ghost remaining = open_view(open@);
            proof {
                assert(remaining =~= rest.drop_last());
                assert(rest.last() == (start as int, views(parent@)));
                lemma_views_push(parent@, value);
            }
            parent.push(value);
            open.push((start, parent));
            proof {
                assert(open_view(open@) =~= remaining.push((start as int, views(parent@))));
            }
        }
    }

    /// Reads one octet string, with the display hint before it if there is
    /// one.
    pub fn string(&mut self) -> (r: Result<Atom, Error>)
        requires
            old(self).wf(),
        ensures
            final(self).wf(),
            final(self).same_source(old(self)),
            match spec_string(*old(self).parser, old(self).input@, old(self).offset as int) {
                Ok((atom, next)) => r matches Ok(a) && a@ == atom && final(self).offset == next,
                Err(failure) => r matches Err(e) && e@ == failure,
            },
    {
        if self.peek() == Some(0x5b) {
            let hint = match self.display_hint() {
                Ok(hint) => hint,
                Err(error) => {
                    return Err(error);
                },
            };
            if self.peek() == Some(0x28) {
                return Err(self.error(ErrorKind::HintOnList));
            }
            match self.simple_string() {
                Ok(data) => Ok(Atom::from(data).with_hint(hint.as_slice())),
                Err(error) => Err(error),
            }
        } else {
            match self.simple_string() {
                Ok(data) => Ok(Atom::from(data)),
                Err(error) => Err(error),
            }
        }
    }

    /// Reads a display hint, brackets and all (§4.6).
    pub fn display_hint(&mut self) -> (r: Result<Vec<u8>, Error>)
        requires
            old(self).wf(),
            old(self).offset < old(self).input@.len(),
        ensures
            final(self).wf(),
            final(self).same_source(old(self)),
            octets_agree(
                r,
                spec_display_hint(*old(self).parser, old(self).input@, old(self).offset as int),
                final(self).offset,
            ),
    {
        if !self.parser.hints {
            return Err(self.error(ErrorKind::HintNotAllowed));
        }
        self.offset = self.offset + 1;
        self.skip_whitespace();
        let hint = match self.simple_string() {
            Ok(hint) => hint,
            Err(error) => {
                return Err(error);
            },
        };
        self.skip_whitespace();
        let close = match self.peek_required() {
            Ok(octet) => octet,
            Err(error) => {
                return Err(error);
            },
        };
        if close != 0x5d {
            return Err(self.error(ErrorKind::UnexpectedOctet));
        }
        self.offset = self.offset + 1;
        self.skip_whitespace();
        Ok(hint)
    }
}

} // verus!
