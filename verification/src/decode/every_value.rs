//! What holds of every S-expression a program can hold.
//!
//! An S-expression in memory has atoms no longer than a `usize` counts, so a
//! parser that restricts nothing allows it. Nested no deeper than the default
//! depth, it is read back from each of its three representations.

use vstd::prelude::*;

use crate::decode::advanced_round_trip::lemma_parse_advanced;
use crate::decode::error::Failure;
use crate::decode::parser::{spec_canonical_parser, spec_new, DEFAULT_MAX_DEPTH};
use crate::decode::reader::spec_parse;
use crate::decode::round_trip::{
    lemma_canonical_unique, lemma_parse_canonical, lemma_parse_transport, lemma_permits_same,
    permits, permits_items,
};
use crate::encode::advanced::spec_advanced;
use crate::encode::canonical::spec_canonical;
use crate::encode::transport::spec_transport;
use crate::types::atom::lemma_atom_fits;
use crate::types::sexp::{lemma_list_view, spec_depth, views, Sexp, SexpV};

verus! {

/// A run of elements each of which the parser allows is allowed as a whole.
proof fn lemma_permits_each(items: Seq<SexpV>)
    requires
        forall|i: int| 0 <= i < items.len() ==> permits(spec_new(), #[trigger] items[i]),
    ensures
        permits_items(spec_new(), items),
    decreases items.len(),
{
    if items.len() > 0 {
        assert(items[items.len() - 1] == items.last());
        lemma_permits_each(items.drop_last());
    }
}

/// Every S-expression a program holds is one that a parser which restricts
/// nothing allows, [`crate::decode::Parser::new`] among them.
pub proof fn lemma_every_value_permitted(s: &Sexp)
    ensures
        permits(spec_new(), s@),
    decreases s,
{
    match s {
        Sexp::Atom(atom) => {
            lemma_atom_fits(atom);
        },
        Sexp::List(items) => {
            lemma_list_view(*items);
            let item_views = views(items@);
            assert forall|i: int| 0 <= i < item_views.len() implies permits(
                spec_new(),
                #[trigger] item_views[i],
            ) by {
                lemma_every_value_permitted(&items@[i]);
            }
            lemma_permits_each(item_views);
        },
    }
}

/// Every S-expression a program holds, nested no deeper than
/// [`DEFAULT_MAX_DEPTH`], is read back by [`crate::decode::parse`] from each
/// of its three representations, and by [`crate::decode::parse_canonical`]
/// from its canonical one. Each representation is taken where its length fits
/// in a `usize`.
pub proof fn lemma_reads_back_every_value(s: &Sexp)
    requires
        spec_depth(s@) <= DEFAULT_MAX_DEPTH,
    ensures
        spec_canonical(s@).len() <= usize::MAX ==> {
            &&& spec_parse(spec_new(), spec_canonical(s@)) == Ok::<SexpV, Failure>(s@)
            &&& spec_parse(spec_canonical_parser(), spec_canonical(s@)) == Ok::<SexpV, Failure>(
                s@,
            )
        },
        spec_transport(s@).len() <= usize::MAX ==> spec_parse(spec_new(), spec_transport(s@))
            == Ok::<SexpV, Failure>(s@),
        spec_advanced(s@).len() <= usize::MAX ==> spec_parse(spec_new(), spec_advanced(s@))
            == Ok::<SexpV, Failure>(s@),
{
    lemma_every_value_permitted(s);
    lemma_permits_same(spec_new(), spec_canonical_parser(), s@);
    if spec_canonical(s@).len() <= usize::MAX {
        lemma_parse_canonical(spec_new(), s@);
        lemma_parse_canonical(spec_canonical_parser(), s@);
    }
    if spec_transport(s@).len() <= usize::MAX {
        lemma_parse_transport(spec_new(), s@);
    }
    if spec_advanced(s@).len() <= usize::MAX {
        lemma_parse_advanced(spec_new(), s@);
    }
}

/// [`crate::decode::parse_canonical`] accepts exactly the canonical
/// representation of an S-expression, nested no deeper than
/// [`DEFAULT_MAX_DEPTH`]: it reads `input` as `s` if and only if `input` is
/// what the canonical writer writes for `s`. The representation is taken
/// where its length fits in a `usize`.
pub proof fn lemma_canonical_exactly(s: &Sexp, input: Seq<u8>)
    requires
        spec_depth(s@) <= DEFAULT_MAX_DEPTH,
        spec_canonical(s@).len() <= usize::MAX,
    ensures
        spec_parse(spec_canonical_parser(), input) == Ok::<SexpV, Failure>(s@) <==> input
            == spec_canonical(s@),
{
    lemma_reads_back_every_value(s);
    lemma_canonical_unique(spec_canonical_parser(), input);
}

} // verus!
