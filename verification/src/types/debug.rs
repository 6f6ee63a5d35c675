//! How an atom and an S-expression are shown to a programmer.
//!
//! The form is the canonical one with every octet string escaped so that it
//! reads as text: a length, a colon and the octets, each octet that is not
//! printable ASCII, or that is a quote or a backslash, written as an escape.
//! Octet strings that differ therefore show differently even where the
//! escapes look alike, since the length counts the octets and not the text.

use vstd::prelude::*;

use crate::encode::canonical::{spec_decimal, write_decimal};
use crate::text::{ascii_chars, string_of_octets};
use crate::types::atom::{Atom, AtomV};
use crate::types::sexp::{lemma_list_view, views, Sexp, SexpV};

verus! {

/// A hexadecimal digit below sixteen, in lower case.
pub open spec fn spec_lower_hex_digit(value: u8) -> u8 {
    if value < 10 {
        (0x30 + value) as u8
    } else {
        (0x57 + value) as u8
    }
}

/// How one octet is escaped: tab, carriage return, line feed, the quotes and
/// the backslash by a backslash and a letter or the octet itself, the rest of
/// printable ASCII as it is, and any other octet as `\x` and two hexadecimal
/// digits in lower case.
pub open spec fn spec_escaped_octet(octet: u8) -> Seq<u8> {
    if octet == 0x09 {
        seq![0x5cu8, 0x74]
    } else if octet == 0x0d {
        seq![0x5cu8, 0x72]
    } else if octet == 0x0a {
        seq![0x5cu8, 0x6e]
    } else if octet == 0x5c || octet == 0x27 || octet == 0x22 {
        seq![0x5cu8, octet]
    } else if 0x20 <= octet <= 0x7e {
        seq![octet]
    } else {
        seq![
            0x5cu8,
            0x78,
            spec_lower_hex_digit(octet / 16),
            spec_lower_hex_digit(octet % 16),
        ]
    }
}

/// A run of octets escaped one by one.
pub open spec fn spec_escaped(octets: Seq<u8>) -> Seq<u8>
    decreases octets.len(),
{
    if octets.len() == 0 {
        Seq::empty()
    } else {
        spec_escaped(octets.drop_last()) + spec_escaped_octet(octets.last())
    }
}

/// One octet string as it is shown: its length, a colon, and its octets
/// escaped.
pub open spec fn spec_shown_octets(octets: Seq<u8>) -> Seq<u8> {
    spec_decimal(octets.len()) + seq![0x3au8] + spec_escaped(octets)
}

/// An atom as it is shown: its display hint in brackets if it has one, then
/// its octets.
pub open spec fn spec_shown_atom(atom: AtomV) -> Seq<u8> {
    match atom.hint {
        Some(hint) => seq![0x5bu8] + spec_shown_octets(hint) + seq![0x5du8] + spec_shown_octets(
            atom.data,
        ),
        None => spec_shown_octets(atom.data),
    }
}

/// An S-expression as it is shown: an atom as above, and a list as its
/// elements between parentheses with nothing between them.
pub open spec fn spec_shown(s: SexpV) -> Seq<u8>
    decreases s,
{
    match s {
        SexpV::Atom(atom) => spec_shown_atom(atom),
        SexpV::List(items) => seq![0x28u8] + spec_shown_items(items) + seq![0x29u8],
    }
}

/// The elements as they are shown, one after another.
pub open spec fn spec_shown_items(items: Seq<SexpV>) -> Seq<u8>
    decreases items,
{
    if items.len() == 0 {
        Seq::empty()
    } else {
        spec_shown_items(items.drop_last()) + spec_shown(items.last())
    }
}

/// The elements shown: the first, then the rest.
proof fn lemma_shown_items_front(first: SexpV, rest: Seq<SexpV>)
    ensures
        spec_shown_items(seq![first] + rest) == spec_shown(first) + spec_shown_items(rest),
    decreases rest.len(),
{
    if rest.len() == 0 {
        assert(seq![first] + rest =~= seq![first]);
        assert(seq![first].drop_last() =~= Seq::<SexpV>::empty());
        assert(spec_shown_items(Seq::<SexpV>::empty()) =~= Seq::<u8>::empty());
        assert(spec_shown_items(seq![first]) =~= spec_shown(first));
        assert(spec_shown(first) + spec_shown_items(rest) =~= spec_shown(first));
    } else {
        lemma_shown_items_front(first, rest.drop_last());
        assert((seq![first] + rest).drop_last() =~= seq![first] + rest.drop_last());
        assert((seq![first] + rest).last() == rest.last());
        assert(spec_shown_items(seq![first] + rest) =~= spec_shown(first) + spec_shown_items(
            rest,
        ));
    }
}

/// Returns the lower-case hexadecimal digit for a value below sixteen.
fn lower_hex_digit(value: u8) -> (r: u8)
    requires
        value < 16,
    ensures
        r == spec_lower_hex_digit(value),
{
    if value < 10 {
        0x30 + value
    } else {
        0x57 + value
    }
}

/// Appends the escape of one octet.
fn write_escaped_octet(octet: u8, out: &mut Vec<u8>)
    ensures
        final(out)@ == old(out)@ + spec_escaped_octet(octet),
{
    if octet == 0x09 {
        out.push(0x5c);
        out.push(0x74);
    } else if octet == 0x0d {
        out.push(0x5c);
        out.push(0x72);
    } else if octet == 0x0a {
        out.push(0x5c);
        out.push(0x6e);
    } else if octet == 0x5c || octet == 0x27 || octet == 0x22 {
        out.push(0x5c);
        out.push(octet);
    } else if 0x20 <= octet && octet <= 0x7e {
        out.push(octet);
    } else {
        out.push(0x5c);
        out.push(0x78);
        out.push(lower_hex_digit(octet / 16));
        out.push(lower_hex_digit(octet % 16));
    }
    assert(final(out)@ =~= old(out)@ + spec_escaped_octet(octet));
}

/// Appends one octet string as it is shown.
fn write_shown_octets(octets: &[u8], out: &mut Vec<u8>)
    ensures
        final(out)@ == old(out)@ + spec_shown_octets(octets@),
{
    write_decimal(octets.len(), out);
    out.push(0x3a);
    let ghost prefix = out@;
    let mut index: usize = 0;
    while index < octets.len()
        invariant
            index <= octets.len(),
            out@ == prefix + spec_escaped(octets@.take(index as int)),
        decreases octets.len() - index,
    {
        write_escaped_octet(octets[index], out);
        index = index + 1;
        assert(octets@.take(index as int).drop_last() =~= octets@.take(index - 1));
        assert(out@ =~= prefix + spec_escaped(octets@.take(index as int)));
    }
    assert(octets@.take(octets.len() as int) =~= octets@);
    assert(final(out)@ =~= old(out)@ + spec_shown_octets(octets@));
}

/// Appends an atom as it is shown.
fn write_shown_atom(atom: &Atom, out: &mut Vec<u8>)
    ensures
        final(out)@ == old(out)@ + spec_shown_atom(atom@),
{
    match atom.hint() {
        Some(hint) => {
            out.push(0x5b);
            write_shown_octets(hint, out);
            out.push(0x5d);
            write_shown_octets(atom.data(), out);
            assert(final(out)@ =~= old(out)@ + spec_shown_atom(atom@));
        },
        None => {
            write_shown_octets(atom.data(), out);
        },
    }
}

/// One step left for the writer to take: an S-expression to show, or the
/// parenthesis that closes a list.
enum Step<'a> {
    Node(&'a Sexp),
    Close,
}

/// What a step writes.
spec fn step_shown(step: Step) -> Seq<u8> {
    match step {
        Step::Node(node) => spec_shown(node@),
        Step::Close => seq![0x29u8],
    }
}

/// What the steps waiting on the stack write, top first.
spec fn pending_shown(stack: Seq<Step>) -> Seq<u8>
    decreases stack.len(),
{
    if stack.len() == 0 {
        Seq::empty()
    } else {
        step_shown(stack.last()) + pending_shown(stack.drop_last())
    }
}

/// An octet string shows as at least its length and a colon.
proof fn lemma_shown_octets_len(octets: Seq<u8>)
    ensures
        spec_shown_octets(octets).len() >= 2,
{
    crate::encode::canonical::lemma_decimal_len(octets.len());
}

/// Appends an S-expression as it is shown, without recursion.
fn write_shown(sexp: &Sexp, out: &mut Vec<u8>)
    ensures
        final(out)@ == old(out)@ + spec_shown(sexp@),
{
    let ghost start = out@;
    let mut stack: Vec<Step> = Vec::new();
    stack.push(Step::Node(sexp));
    proof {
        assert(stack@.drop_last() =~= Seq::<Step>::empty());
        assert(pending_shown(stack@.drop_last()) =~= Seq::<u8>::empty());
        assert(pending_shown(stack@) =~= spec_shown(sexp@));
    }
    while stack.len() > 0
        invariant
            out@ + pending_shown(stack@) == start + spec_shown(sexp@),
        decreases (start + spec_shown(sexp@)).len() - out@.len(),
    {
        let ghost before = stack@;
        let ghost written = out@;
        let step = stack.pop().unwrap();
        proof {
            assert(stack@ =~= before.drop_last());
        }
        match step {
            Step::Close => {
                out.push(0x29);
                assert(out@ =~= written + seq![0x29u8]);
            },
            Step::Node(Sexp::Atom(atom)) => {
                write_shown_atom(atom, out);
                proof {
                    lemma_shown_octets_len(atom@.data);
                }
            },
            Step::Node(Sexp::List(items)) => {
                out.push(0x28);
                let ghost base = stack@;
                let ghost item_views = views(items@);
                proof {
                    lemma_list_view(*items);
                }
                stack.push(Step::Close);
                proof {
                    assert(stack@.drop_last() =~= base);
                    assert(item_views.subrange(items.len() as int, items.len() as int)
                        =~= Seq::<SexpV>::empty());
                }
                let mut index: usize = items.len();
                while index > 0
                    invariant
                        index <= items.len(),
                        item_views == views(items@),
                        pending_shown(stack@) == spec_shown_items(
                            item_views.subrange(index as int, items.len() as int),
                        ) + seq![0x29u8] + pending_shown(base),
                    decreases index,
                {
                    let ghost prior = stack@;
                    index = index - 1;
                    stack.push(Step::Node(&items[index]));
                    proof {
                        assert(stack@.drop_last() =~= prior);
                        let tail = item_views.subrange(index + 1, items.len() as int);
                        assert(item_views.subrange(index as int, items.len() as int)
                            =~= seq![item_views[index as int]] + tail);
                        lemma_shown_items_front(item_views[index as int], tail);
                        assert(pending_shown(stack@) =~= spec_shown_items(
                            item_views.subrange(index as int, items.len() as int),
                        ) + seq![0x29u8] + pending_shown(base));
                    }
                }
                proof {
                    assert(item_views.subrange(0, items.len() as int) =~= item_views);
                    assert(written + pending_shown(before) =~= out@ + pending_shown(stack@));
                }
            },
        }
    }
}

impl Atom {
    /// Returns the atom as it is shown to a programmer: its display hint in
    /// brackets if it has one, then its length, a colon and its octets, each
    /// one escaped that is not printable ASCII or that is a quote or a
    /// backslash.
    pub fn debug_string(&self) -> (r: String)
        ensures
            r@ == ascii_chars(spec_shown_atom(self@)),
    {
        let mut out: Vec<u8> = Vec::new();
        write_shown_atom(self, &mut out);
        string_of_octets(out.as_slice())
    }
}

impl Sexp {
    /// Returns the S-expression as it is shown to a programmer: each atom as
    /// [`Atom::debug_string`] shows it, and each list as its elements between
    /// parentheses with nothing between them.
    pub fn debug_string(&self) -> (r: String)
        ensures
            r@ == ascii_chars(spec_shown(self@)),
    {
        let mut out: Vec<u8> = Vec::new();
        write_shown(self, &mut out);
        assert(out@ =~= Seq::<u8>::empty() + spec_shown(self@));
        string_of_octets(out.as_slice())
    }
}

} // verus!
