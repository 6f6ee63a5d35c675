//! The basic transport representation (RFC 9804, §6.3).
//!
//! §6.3 admits two forms for moving an S-expression from one machine to
//! another. The first is the canonical representation itself, which
//! [`crate::encode::canonical`] writes. The second is that same canonical
//! representation encoded in base 64 and surrounded by braces, as §6.1 gives
//! it, which is what this module writes.
//!
//! The braced form spends four characters for every three octets, and buys
//! with them an encoding that survives a channel that would disturb raw
//! octets, since every character it emits is a base-64 character or a brace.
//! What is inside the braces is the canonical representation and nothing else,
//! so an S-expression has exactly one braced form.
//!
//! §6.1 allows whitespace inside the braces, which a reader ignores. Nothing
//! here emits any, so the output of a whole S-expression is one unbroken run
//! of characters.

use vstd::prelude::*;

use crate::base64::{
    self, lemma_encode_append, lemma_encode_characters, lemma_encode_len, spec_encode,
    spec_encoded_len, spec_is_encoding_character, Writer,
};
use crate::encode::canonical::{self, spec_canonical};
use crate::text::{ascii_chars, string_of_octets};
use crate::types::sexp::{saturated, Sexp, SexpV};

verus! {

/// The basic transport representation of an S-expression: its canonical
/// representation encoded in base 64, between braces.
pub open spec fn spec_transport(s: SexpV) -> Seq<u8> {
    seq![0x7b] + spec_encode(spec_canonical(s)) + seq![0x7d]
}

/// Returns the basic transport representation of the S-expression, as text.
///
/// Every character is a base-64 character or a brace, so the result is ASCII.
pub fn to_string(sexp: &Sexp) -> (r: String)
    ensures
        r@ == ascii_chars(spec_transport(sexp@)),
{
    let octets = to_vec(sexp);
    string_of_octets(octets.as_slice())
}

/// Returns the basic transport representation of the S-expression, as
/// octets.
pub fn to_vec(sexp: &Sexp) -> (r: Vec<u8>)
    ensures
        r@ == spec_transport(sexp@),
{
    let canonical = canonical::to_vec(sexp);
    let mut out: Vec<u8> = Vec::new();
    out.push(0x7b);
    base64::encode_onto(canonical.as_slice(), &mut out);
    out.push(0x7d);
    assert(out@ =~= spec_transport(sexp@));
    out
}

/// Returns how many characters the basic transport representation occupies.
///
/// This is exact rather than an estimate, so an application that caps the size
/// of what it emits can measure before writing. A length past the largest
/// `usize` is reported as the largest `usize`.
pub fn encoded_len(sexp: &Sexp) -> (r: usize)
    ensures
        r == saturated(spec_transport(sexp@).len() as int),
{
    proof {
        lemma_encode_len(spec_canonical(sexp@));
    }
    encoded_len_of(canonical::encoded_len(sexp))
}

/// Returns how many characters wrap a canonical representation of `octets`
/// octets.
fn encoded_len_of(octets: usize) -> (r: usize)
    ensures
        r == saturated(spec_encoded_len(octets as nat) + 2int),
{
    // One character for each brace.
    base64::encoded_len(octets).saturating_add(2)
}

/// Every character of the basic transport representation is a character of
/// the base-64 alphabet, padding, or one of the two braces, and the braces
/// stand only at either end.
pub proof fn lemma_transport_characters(s: SexpV)
    ensures
        spec_transport(s)[0] == 0x7b,
        spec_transport(s).last() == 0x7d,
        forall|i: int|
            0 < i < spec_transport(s).len() - 1 ==> spec_is_encoding_character(
                #[trigger] spec_transport(s)[i],
            ),
{
    let encoded = spec_encode(spec_canonical(s));
    lemma_encode_characters(spec_canonical(s));
    assert forall|i: int| 0 < i < spec_transport(s).len() - 1 implies spec_is_encoding_character(
        #[trigger] spec_transport(s)[i],
    ) by {
        assert(spec_transport(s)[i] == encoded[i - 1]);
    }
}

/// The basic transport representation of an S-expression, handed out a
/// piece at a time: the opening brace, then the encoding of each piece of the
/// canonical representation as far as it completes groups of three octets,
/// then the rest of the encoding with the closing brace.
///
/// Only the piece in hand, the lists still open and up to two octets waiting
/// to be coded are held, so the whole representation never is.
pub struct Pieces<'a> {
    inner: canonical::Pieces<'a>,
    coder: Writer,
    opened: bool,
    closed: bool,
}

impl<'a> View for Pieces<'a> {
    type V = Seq<u8>;

    /// The octets still to be handed out.
    closed spec fn view(&self) -> Seq<u8> {
        (if self.opened {
            Seq::empty()
        } else {
            seq![0x7bu8]
        }) + (if self.closed {
            Seq::empty()
        } else {
            spec_encode(self.coder@ + self.inner@) + seq![0x7du8]
        })
    }
}

/// Returns the basic transport representation of the S-expression, to be
/// handed out a piece at a time.
pub fn pieces(sexp: &Sexp) -> (r: Pieces<'_>)
    ensures
        r@ == spec_transport(sexp@),
{
    let inner = canonical::pieces(sexp);
    let r = Pieces { inner, coder: Writer::new(), opened: false, closed: false };
    assert(Seq::<u8>::empty() + spec_canonical(sexp@) =~= spec_canonical(sexp@));
    assert(r@ =~= spec_transport(sexp@));
    r
}

impl<'a> Pieces<'a> {
    /// Returns the next piece of the representation, or `None` once all of it
    /// has been handed out. A piece may be empty, where a piece of the
    /// canonical representation completed no group of three octets.
    pub fn next(&mut self) -> (r: Option<Vec<u8>>)
        ensures
            match r {
                None => old(self)@.len() == 0 && final(self)@.len() == 0,
                Some(piece) => old(self)@ == piece@ + final(self)@,
            },
    {
        if !self.opened {
            self.opened = true;
            let piece: Vec<u8> = vec![0x7b];
            assert(old(self)@ =~= piece@ + self@);
            return Some(piece);
        }
        if self.closed {
            assert(old(self)@ =~= Seq::<u8>::empty());
            return None;
        }
        let ghost before = self.inner@;
        match self.inner.next() {
            Some(piece) => {
                let ghost waiting = self.coder@;
                let coded = self.coder.write_all(piece.as_slice());
                proof {
                    let taken = waiting + piece@;
                    let done = (taken.len() - self.coder@.len()) as int;
                    assert(taken =~= taken.take(done) + self.coder@) by {
                        assert(taken.skip(done) == self.coder@);
                    }
                    assert(waiting + before =~= taken.take(done) + (self.coder@ + self.inner@));
                    lemma_encode_append(taken.take(done), self.coder@ + self.inner@);
                    assert(old(self)@ =~= coded@ + self@);
                }
                Some(coded)
            },
            None => {
                let mut coder = Writer::new();
                std::mem::swap(&mut coder, &mut self.coder);
                let ghost waiting = coder@;
                let mut tail = coder.finish();
                tail.push(0x7d);
                self.closed = true;
                assert(waiting + before =~= waiting);
                assert(old(self)@ =~= tail@ + self@);
                Some(tail)
            },
        }
    }
}

} // verus!
