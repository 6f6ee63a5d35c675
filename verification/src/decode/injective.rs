//! One canonical representation for one S-expression, and one S-expression
//! for one canonical representation.
//!
//! §6.2 gives an S-expression exactly one canonical representation. Turned
//! around, two S-expressions that differ never share one, which is what makes
//! a signature over those octets a signature over one value.

use vstd::prelude::*;

use crate::decode::parser::{spec_canonical_parser, Parser};
use crate::decode::round_trip::{lemma_parse_canonical, permits, permits_items};
use crate::encode::canonical::{spec_canonical, spec_canonical_items, spec_verbatim};
use crate::types::sexp::{spec_depth, spec_depth_of_items, SexpV};

verus! {

/// The parser that reads only the canonical representation and refuses
/// nothing else, with every limit as large as a `usize` holds.
pub open spec fn spec_unlimited() -> Parser {
    Parser {
        max_depth: usize::MAX,
        max_atom_len: usize::MAX,
        max_input_len: usize::MAX,
        ..spec_canonical_parser()
    }
}

/// An S-expression whose canonical representation fits in a `usize` is one
/// the unlimited parser allows, and it nests no deeper than its canonical
/// representation is long.
proof fn lemma_canonical_bounds(s: SexpV)
    requires
        spec_canonical(s).len() <= usize::MAX,
    ensures
        permits(spec_unlimited(), s),
        spec_depth(s) <= spec_canonical(s).len(),
    decreases s, 1int,
{
    match s {
        SexpV::Atom(atom) => {
            assert(spec_verbatim(atom.data).len() >= atom.data.len());
            if let Some(hint) = atom.hint {
                assert(spec_verbatim(hint).len() >= hint.len());
            }
        },
        SexpV::List(items) => {
            lemma_canonical_items_bounds(items);
        },
    }
}

/// The elements of a list whose canonical representation fits in a `usize`
/// are all ones the unlimited parser allows, and they nest no deeper than
/// their representations are long together.
proof fn lemma_canonical_items_bounds(items: Seq<SexpV>)
    requires
        spec_canonical_items(items).len() <= usize::MAX,
    ensures
        permits_items(spec_unlimited(), items),
        spec_depth_of_items(items) <= spec_canonical_items(items).len(),
    decreases items, 0int,
{
    if items.len() > 0 {
        lemma_canonical_items_bounds(items.drop_last());
        lemma_canonical_bounds(items.last());
    }
}

/// Two S-expressions share a canonical representation only where they are
/// equal, so that a signature over the representation is a signature over
/// one value. The first representation is taken where its length fits in a
/// `usize`.
pub proof fn lemma_canonical_injective(a: SexpV, b: SexpV)
    requires
        spec_canonical(a).len() <= usize::MAX,
    ensures
        spec_canonical(a) == spec_canonical(b) ==> a == b,
{
    if spec_canonical(a) == spec_canonical(b) {
        lemma_canonical_bounds(a);
        lemma_canonical_bounds(b);
        lemma_parse_canonical(spec_unlimited(), a);
        lemma_parse_canonical(spec_unlimited(), b);
    }
}

} // verus!
