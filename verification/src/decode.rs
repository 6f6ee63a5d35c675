//! Reading an S-expression from any representation of RFC 9804 §6.
//!
//! [`parse`] reads whatever representation the input is written in, which is
//! what §6 asks a reader to accept. [`parse_canonical`] reads only the
//! canonical representation of §6.2, which is what verifying a signature calls
//! for. [`Parser`] is either of those with the restrictions of §8 turned on
//! one at a time, and with limits on how deep and how large the input may be.
//!
//! A parse builds a [`Sexp`], which holds no trace of the representation it
//! came from. Reading and writing therefore preserve the value and not the
//! octets, and only the canonical representation is preserved octet for octet,
//! since §6.2 gives an S-expression exactly one of those.
//!
//! Parsing is iterative, so input that nests deeply costs no stack, and a
//! [`Parser`] refuses input nested deeper than [`DEFAULT_MAX_DEPTH`] unless it
//! is told otherwise.

pub mod error;
pub mod parser;

pub use error::{Error, ErrorKind, ReadError};
pub use parser::{Parser, DEFAULT_MAX_DEPTH};
pub mod reader;
pub mod round_trip;
pub mod advanced_round_trip;
pub mod restrictions;
pub mod injective;
pub mod offsets;
pub mod prefix;
pub mod every_value;

use vstd::prelude::*;

use crate::decode::parser::{spec_canonical_parser, spec_new};
use crate::decode::advanced_round_trip::lemma_parse_advanced;
use crate::decode::reader::{parse_agrees, spec_parse};
use crate::decode::restrictions::lemma_parse_obeys;
use crate::decode::round_trip::{
    lemma_parse_canonical, lemma_parse_transport, lemma_permits_same,
};
use crate::encode::advanced::spec_advanced;
use crate::encode::canonical::spec_canonical;
use crate::encode::transport::spec_transport;
use crate::types::sexp::{Sexp, SexpV};

verus! {

/// Reads one S-expression, in whichever representation of §6 it is written.
///
/// This is [`Parser::new`] with nothing restricted beyond its default depth.
/// Build a [`Parser`] where the input comes from somewhere untrusted, or where
/// only one representation is to be accepted.
pub fn parse(input: &[u8]) -> (r: Result<Sexp, Error>)
    ensures
        parse_agrees(r, spec_parse(spec_new(), input@)),
{
    Parser::new().parse(input)
}

/// Reads one S-expression written in the canonical representation of §6.2.
///
/// This is [`Parser::canonical`], which refuses the advanced and basic
/// transport representations. Read this way where the octets themselves
/// matter, as they do to a signature computed over them.
pub fn parse_canonical(input: &[u8]) -> (r: Result<Sexp, Error>)
    ensures
        parse_agrees(r, spec_parse(spec_canonical_parser(), input@)),
{
    Parser::canonical().parse(input)
}

/// Whatever [`parse`] reads comes back unchanged from each of the three
/// representations: its canonical representation read by [`parse_canonical`],
/// and its basic transport and advanced representations read by [`parse`].
/// Each representation is taken where its length fits in a `usize`.
pub proof fn lemma_written_back(input: Seq<u8>)
    ensures
        spec_parse(spec_new(), input) matches Ok(value) ==> {
            &&& spec_canonical(value).len() <= usize::MAX ==> spec_parse(
                spec_canonical_parser(),
                spec_canonical(value),
            ) == Ok::<SexpV, error::Failure>(value)
            &&& spec_transport(value).len() <= usize::MAX ==> spec_parse(
                spec_new(),
                spec_transport(value),
            ) == Ok::<SexpV, error::Failure>(value)
            &&& spec_advanced(value).len() <= usize::MAX ==> spec_parse(
                spec_new(),
                spec_advanced(value),
            ) == Ok::<SexpV, error::Failure>(value)
        },
{
    lemma_parse_obeys(spec_new(), input);
    if let Ok(value) = spec_parse(spec_new(), input) {
        lemma_permits_same(spec_new(), spec_canonical_parser(), value);
        if spec_canonical(value).len() <= usize::MAX {
            lemma_parse_canonical(spec_canonical_parser(), value);
        }
        if spec_transport(value).len() <= usize::MAX {
            lemma_parse_transport(spec_new(), value);
        }
        if spec_advanced(value).len() <= usize::MAX {
            lemma_parse_advanced(spec_new(), value);
        }
    }
}

} // verus!
