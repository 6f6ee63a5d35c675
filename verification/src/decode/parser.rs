//! What an application will accept, and reading input against it.
//!
//! Out of the box a [`Parser`] accepts every representation of RFC 9804 §6,
//! since a reader that meets the specification accepts them all. The
//! restrictions §8 lists are the ones that can be turned on, one call each.
//! The reading itself is [`crate::decode::reader`].

use vstd::prelude::*;

use crate::decode::error::{Error, ErrorKind};
use crate::decode::error::Failure;
use crate::decode::prefix::lemma_prefix_alone;
use crate::decode::reader::{
    parse_agrees, spec_parse, spec_parse_prefix, spec_skip_whitespace, Reader,
};
use crate::types::sexp::SexpV;
use crate::types::sexp::Sexp;

verus! {

/// How deeply lists may nest before a parser that was given no other limit
/// refuses to go further.
///
/// RFC 9804 sets no such limit. This one is here because the value a parse
/// builds is a tree, and dropping, cloning or comparing a tree walks it by
/// recursion, so a tree deeper than the stack can hold is a hazard to whatever
/// receives it. A thousand and twenty-four is far past what an S-expression
/// written by hand or by a protocol reaches, and far short of what any stack
/// this crate runs on will bear.
pub const DEFAULT_MAX_DEPTH: usize = 1024;

/// A reader of S-expressions, and the restrictions it reads against.
///
/// [`Parser::new`] accepts the canonical representation of §6.2, the basic
/// transport representation of §6.3, and the advanced representation of §6.4,
/// which together are what §6 asks a reader to accept. [`Parser::canonical`]
/// accepts only the canonical representation, which is what verifying a
/// signature calls for, since a signature is computed over those octets
/// exactly.
///
/// The rest of the methods impose the restrictions §8 lists. Each one is off
/// to begin with, so that a parser fresh from [`Parser::new`] refuses nothing
/// the specification admits, apart from nesting deeper than
/// [`DEFAULT_MAX_DEPTH`].
///
/// A parser holds no state between parses, so one may be built once and used
/// as often as wanted.
#[derive(Clone, Copy, Debug, PartialEq, Eq, Hash, Structural)]
pub struct Parser {
    /// How deeply lists may nest, the outermost counting as one.
    pub max_depth: usize,
    /// How long one octet string may be, in octets.
    pub max_atom_len: usize,
    /// How long the whole input may be, in octets.
    pub max_input_len: usize,
    /// Whether the advanced representation of §6.4 is accepted.
    pub advanced: bool,
    /// Whether the basic transport representation of §6.3 is accepted.
    pub transport: bool,
    /// Whether display hints are accepted.
    pub hints: bool,
    /// Whether zero-length octet strings are accepted.
    pub empty_atoms: bool,
    /// Whether empty lists are accepted.
    pub empty_lists: bool,
    /// Whether a list may have a list as its first element.
    pub list_as_first_element: bool,
    /// Whether hexadecimal octet strings are accepted.
    pub hexadecimal: bool,
    /// Whether base-64 octet strings are accepted.
    pub base64: bool,
    /// Whether a length may precede a quoted, hexadecimal or base-64 octet
    /// string.
    pub lengths: bool,
}

/// The parser that accepts every representation of §6, refusing only lists
/// nested deeper than [`DEFAULT_MAX_DEPTH`].
pub open spec fn spec_new() -> Parser {
    Parser {
        max_depth: DEFAULT_MAX_DEPTH,
        max_atom_len: usize::MAX,
        max_input_len: usize::MAX,
        advanced: true,
        transport: true,
        hints: true,
        empty_atoms: true,
        empty_lists: true,
        list_as_first_element: true,
        hexadecimal: true,
        base64: true,
        lengths: true,
    }
}

/// The parser that accepts only the canonical representation of §6.2.
pub open spec fn spec_canonical_parser() -> Parser {
    Parser { advanced: false, transport: false, ..spec_new() }
}

/// The parser that applies to what a pair of braces holds, which §6.1 makes a
/// canonical representation: the same restrictions, with the advanced and
/// basic transport representations refused.
pub open spec fn spec_within_transport(parser: Parser) -> Parser {
    Parser { advanced: false, transport: false, ..parser }
}

impl Parser {
    /// Creates a parser that accepts every representation of §6.
    ///
    /// Nothing the specification admits is refused, except lists nested deeper
    /// than [`DEFAULT_MAX_DEPTH`].
    #[must_use]
    pub fn new() -> (r: Self)
        ensures
            r == spec_new(),
    {
        Parser {
            max_depth: DEFAULT_MAX_DEPTH,
            max_atom_len: usize::MAX,
            max_input_len: usize::MAX,
            advanced: true,
            transport: true,
            hints: true,
            empty_atoms: true,
            empty_lists: true,
            list_as_first_element: true,
            hexadecimal: true,
            base64: true,
            lengths: true,
        }
    }

    /// Creates a parser that accepts only the canonical representation of
    /// §6.2.
    ///
    /// Verifying a signature means knowing that the octets signed are the
    /// octets in hand, and only the canonical representation makes that so.
    /// This is [`Parser::new`] with [`Parser::allow_advanced`] and
    /// [`Parser::allow_transport`] turned off. The other restrictions are as
    /// [`Parser::new`] leaves them.
    #[must_use]
    pub fn canonical() -> (r: Self)
        ensures
            r == spec_canonical_parser(),
    {
        Self::new().allow_advanced(false).allow_transport(false)
    }

    /// Sets how deeply lists may nest.
    ///
    /// The outermost list counts as one, which is the depth [`Sexp::depth`]
    /// reports.
    ///
    /// [`Sexp::depth`]: crate::types::Sexp::depth
    #[must_use]
    pub fn max_depth(self, depth: usize) -> (r: Self)
        ensures
            r == (Parser { max_depth: depth, ..self }),
    {
        Parser { max_depth: depth, ..self }
    }

    /// Sets how long one octet string may be, in octets.
    ///
    /// §8 names a fixed limit on the size of an octet string as a restriction
    /// an application may impose. The limit applies to the data of an atom and
    /// to its display hint separately, since §4.6 makes the hint an octet
    /// string of its own.
    #[must_use]
    pub fn max_atom_len(self, len: usize) -> (r: Self)
        ensures
            r == (Parser { max_atom_len: len, ..self }),
    {
        Parser { max_atom_len: len, ..self }
    }

    /// Sets how long the whole input may be, in octets.
    ///
    /// This is measured before parsing begins, so input beyond the limit is
    /// refused without being examined.
    #[must_use]
    pub fn max_input_len(self, len: usize) -> (r: Self)
        ensures
            r == (Parser { max_input_len: len, ..self }),
    {
        Parser { max_input_len: len, ..self }
    }

    /// Sets whether the advanced representation of §6.4 is accepted.
    ///
    /// Turning it off leaves the canonical representation, which is verbatim
    /// octet strings and lists and nothing else. Whitespace, tokens, quoted
    /// strings, hexadecimal and base 64 are then all refused, whatever the
    /// other restrictions say.
    #[must_use]
    pub fn allow_advanced(self, allow: bool) -> (r: Self)
        ensures
            r == (Parser { advanced: allow, ..self }),
    {
        Parser { advanced: allow, ..self }
    }

    /// Sets whether the basic transport representation of §6.3 is accepted.
    ///
    /// This is the braced form of §6.1, which holds a canonical representation
    /// encoded in base 64. §7.3 puts it around a whole S-expression, so it is
    /// accepted only as the whole input, never as an element within a list.
    #[must_use]
    pub fn allow_transport(self, allow: bool) -> (r: Self)
        ensures
            r == (Parser { transport: allow, ..self }),
    {
        Parser { transport: allow, ..self }
    }

    /// Sets whether display hints are accepted (§8).
    #[must_use]
    pub fn allow_display_hints(self, allow: bool) -> (r: Self)
        ensures
            r == (Parser { hints: allow, ..self }),
    {
        Parser { hints: allow, ..self }
    }

    /// Sets whether zero-length octet strings are accepted (§8).
    ///
    /// The restriction applies to the data of an atom and to its display hint
    /// alike.
    #[must_use]
    pub fn allow_empty_atoms(self, allow: bool) -> (r: Self)
        ensures
            r == (Parser { empty_atoms: allow, ..self }),
    {
        Parser { empty_atoms: allow, ..self }
    }

    /// Sets whether empty lists are accepted (§8).
    #[must_use]
    pub fn allow_empty_lists(self, allow: bool) -> (r: Self)
        ensures
            r == (Parser { empty_lists: allow, ..self }),
    {
        Parser { empty_lists: allow, ..self }
    }

    /// Sets whether a list may have a list as its first element (§8).
    #[must_use]
    pub fn allow_list_as_first_element(self, allow: bool) -> (r: Self)
        ensures
            r == (Parser { list_as_first_element: allow, ..self }),
    {
        Parser { list_as_first_element: allow, ..self }
    }

    /// Sets whether hexadecimal octet strings are accepted (§8).
    ///
    /// This is the form of §4.4, between two `#` characters. It appears only
    /// in the advanced representation.
    #[must_use]
    pub fn allow_hexadecimal(self, allow: bool) -> (r: Self)
        ensures
            r == (Parser { hexadecimal: allow, ..self }),
    {
        Parser { hexadecimal: allow, ..self }
    }

    /// Sets whether base-64 octet strings are accepted (§8).
    ///
    /// This is the form of §4.5, between two `|` characters, which is one
    /// octet string within an advanced representation. It has nothing to do
    /// with [`Parser::allow_transport`], which governs a whole S-expression
    /// encoded in base 64 between braces.
    #[must_use]
    pub fn allow_base64(self, allow: bool) -> (r: Self)
        ensures
            r == (Parser { base64: allow, ..self }),
    {
        Parser { base64: allow, ..self }
    }

    /// Sets whether a length may precede a quoted, hexadecimal or base-64
    /// octet string (§8).
    ///
    /// The length before a verbatim octet string is not affected, since §4.1
    /// has no form without it.
    #[must_use]
    pub fn allow_lengths(self, allow: bool) -> (r: Self)
        ensures
            r == (Parser { lengths: allow, ..self }),
    {
        Parser { lengths: allow, ..self }
    }

    /// Returns this parser as it applies to what a pair of braces holds, which
    /// §6.1 makes a canonical representation.
    pub fn within_transport(&self) -> (r: Self)
        ensures
            r == spec_within_transport(*self),
    {
        Parser { advanced: false, transport: false, ..*self }
    }
}

impl Parser {
    /// Reads one S-expression, which is the whole of `input`.
    ///
    /// Whitespace before and after is accepted where the advanced
    /// representation is, as §7.1 allows. Anything else left over is an error,
    /// which is what distinguishes this from [`Parser::parse_prefix`].
    pub fn parse(&self, input: &[u8]) -> (r: Result<Sexp, Error>)
        ensures
            parse_agrees(r, spec_parse(*self, input@)),
        decreases (if self.transport {
            1int
        } else {
            0int
        }), 2int,
    {
        let mut reader = match self.reader(input) {
            Ok(reader) => reader,
            Err(error) => {
                return Err(error);
            },
        };
        let sexp = match reader.sexp() {
            Ok(sexp) => sexp,
            Err(error) => {
                return Err(error);
            },
        };
        reader.skip_whitespace();
        if reader.offset() < input.len() {
            return Err(Error::new(ErrorKind::TrailingOctets, reader.offset()));
        }
        Ok(sexp)
    }

    /// Reads one S-expression from the start of `input`, and returns it with
    /// the number of octets it occupied.
    ///
    /// What follows is not examined, so this is the way to read a stream of
    /// S-expressions one after another. The count does not include whitespace
    /// after the S-expression, only whatever was needed to read it.
    pub fn parse_prefix(&self, input: &[u8]) -> (r: Result<(Sexp, usize), Error>)
        ensures
            match spec_parse_prefix(*self, input@) {
                Ok((value, len)) => r matches Ok((v, n)) && v@ == value && n == len,
                Err(failure) => r matches Err(e) && e@ == failure,
            },
            r matches Ok((_, n)) ==> 1 <= n <= input@.len(),
    {
        proof {
            lemma_prefix_alone(*self, input@);
        }
        let mut reader = match self.reader(input) {
            Ok(reader) => reader,
            Err(error) => {
                return Err(error);
            },
        };
        let sexp = match reader.sexp() {
            Ok(sexp) => sexp,
            Err(error) => {
                return Err(error);
            },
        };
        Ok((sexp, reader.offset()))
    }

    /// Creates a reader over input this parser will look at at all.
    fn reader<'a>(&'a self, input: &'a [u8]) -> (r: Result<Reader<'a>, Error>)
        ensures
            if input@.len() > self.max_input_len {
                r matches Err(e) && e@ == (ErrorKind::InputTooLong, self.max_input_len as int)
            } else {
                r matches Ok(reader) && reader.parser == self && reader.input == input
                    && reader.offset == 0 && reader.wf()
            },
    {
        if input.len() > self.max_input_len {
            return Err(Error::new(ErrorKind::InputTooLong, self.max_input_len));
        }
        Ok(Reader::new(self, input))
    }
}

/// Reading the whole input is reading one S-expression from its start and
/// finding nothing after it but the whitespace the parser passes over: both
/// succeed together with the same S-expression, and a prefix that leaves
/// anything else behind is refused where that begins. The count a prefix read
/// returns lies between one and the length of the input.
pub proof fn lemma_parse_is_a_whole_prefix(parser: Parser, input: Seq<u8>)
    ensures
        match spec_parse_prefix(parser, input) {
            Ok((value, len)) => 1 <= len <= input.len() && {
                let end = spec_skip_whitespace(parser, input, len);
                if end < input.len() {
                    spec_parse(parser, input) == Err::<SexpV, Failure>(
                        (ErrorKind::TrailingOctets, end),
                    )
                } else {
                    spec_parse(parser, input) == Ok::<SexpV, Failure>(value)
                }
            },
            Err(failure) => spec_parse(parser, input) == Err::<SexpV, Failure>(failure),
        },
{
    lemma_prefix_alone(parser, input);
}

impl Default for Parser {
    fn default() -> (r: Self)
        ensures
            r == spec_new(),
    {
        Self::new()
    }
}

} // verus!
