//! The advanced representation (RFC 9804, §6.4).
//!
//! §6.4 is the representation meant to be read by a person. §4 gives an octet
//! string five forms there, and this module chooses among three of them by
//! what the octets are.
//!
//! An octet string that qualifies as a token under §4.3 is written as one,
//! bare, which is the shortest and plainest form. An octet string that does
//! not qualify but reads as text is written as a quoted string (§4.2), with a
//! backslash escape for the two characters that would end or continue it and
//! for the seven control characters §4.2 names. Anything else is written in
//! hexadecimal (§4.4), which stays legible where an escaped binary string
//! would not. Reading as text here means every octet is either printable ASCII
//! or one of those seven control characters.
//!
//! §4.1 verbatim and §4.5 base 64 are never written. Both are read back
//! without complaint by [`crate::decode`].
//!
//! No length is written before a quoted string or a hexadecimal string, though
//! §4.2 and §4.4 allow one, since §8 lets an application refuse lengths there.
//! Elements of a list are separated by one space, which §5 requires between
//! two tokens and permits everywhere else. Every character written is ASCII.
//!
//! This representation is not unique. Hash and sign the canonical
//! representation of §6.2 instead, which [`crate::encode::canonical`] writes.

use vstd::prelude::*;

use crate::syntax::{qualifies_as_token, spec_qualifies_as_token};
use crate::text::{ascii_chars, string_of_octets};
use crate::types::atom::{Atom, AtomV};
use crate::types::sexp::{lemma_list_view, views, Sexp, SexpV};

verus! {

/// The letter §4.2 escapes one of its seven control characters by, or `None`
/// for any other octet.
pub open spec fn spec_escape_letter(octet: u8) -> Option<u8> {
    if octet == 0x07 {
        Some(0x61u8)
    } else if octet == 0x08 {
        Some(0x62u8)
    } else if octet == 0x09 {
        Some(0x74u8)
    } else if octet == 0x0a {
        Some(0x6eu8)
    } else if octet == 0x0b {
        Some(0x76u8)
    } else if octet == 0x0c {
        Some(0x66u8)
    } else if octet == 0x0d {
        Some(0x72u8)
    } else {
        None
    }
}

/// An octet that may stand in a quoted string as itself or as a one-letter
/// escape: printable ASCII, or one of the seven control characters.
pub open spec fn spec_is_text(octet: u8) -> bool {
    (0x20 <= octet <= 0x7e) || spec_escape_letter(octet) is Some
}

/// How one octet is written inside a quoted string.
pub open spec fn spec_quoted_octet(octet: u8) -> Seq<u8> {
    match spec_escape_letter(octet) {
        Some(letter) => seq![0x5c, letter],
        None => if octet == 0x22 || octet == 0x5c {
            seq![0x5c, octet]
        } else {
            seq![octet]
        },
    }
}

/// The octets of a quoted string between its quotes.
pub open spec fn spec_quoted_body(octets: Seq<u8>) -> Seq<u8>
    decreases octets.len(),
{
    if octets.len() == 0 {
        Seq::empty()
    } else {
        spec_quoted_body(octets.drop_last()) + spec_quoted_octet(octets.last())
    }
}

/// An octet string as a quoted string (§4.2).
pub open spec fn spec_quoted(octets: Seq<u8>) -> Seq<u8> {
    seq![0x22] + spec_quoted_body(octets) + seq![0x22]
}

/// The lowercase hexadecimal digit for a value below sixteen.
pub open spec fn spec_hex_digit(value: u8) -> u8 {
    if value < 10 {
        (0x30 + value) as u8
    } else {
        (0x61 + value - 10) as u8
    }
}

/// The digits of an octet string in hexadecimal, two to an octet.
pub open spec fn spec_hex_body(octets: Seq<u8>) -> Seq<u8>
    decreases octets.len(),
{
    if octets.len() == 0 {
        Seq::empty()
    } else {
        spec_hex_body(octets.drop_last()) + seq![
            spec_hex_digit(octets.last() >> 4u8),
            spec_hex_digit(octets.last() & 15u8),
        ]
    }
}

/// An octet string in hexadecimal (§4.4).
pub open spec fn spec_hexadecimal(octets: Seq<u8>) -> Seq<u8> {
    seq![0x23] + spec_hex_body(octets) + seq![0x23]
}

/// Every octet reads as text.
pub open spec fn spec_all_text(octets: Seq<u8>) -> bool {
    forall|i: int| 0 <= i < octets.len() ==> #[trigger] spec_is_text(octets[i])
}

/// One octet string in the form that suits its octets: a token where it
/// qualifies as one, a quoted string where it reads as text, and hexadecimal
/// otherwise.
pub open spec fn spec_advanced_octets(octets: Seq<u8>) -> Seq<u8> {
    if spec_qualifies_as_token(octets) {
        octets
    } else if spec_all_text(octets) {
        spec_quoted(octets)
    } else {
        spec_hexadecimal(octets)
    }
}

/// One atom, preceded by its display hint in brackets if it has one.
pub open spec fn spec_advanced_atom(atom: AtomV) -> Seq<u8> {
    match atom.hint {
        Some(hint) => seq![0x5b] + spec_advanced_octets(hint) + seq![0x5d]
            + spec_advanced_octets(atom.data),
        None => spec_advanced_octets(atom.data),
    }
}

/// The advanced representation of an S-expression: an atom as above, and a
/// list as its elements between parentheses, one space between each two.
pub open spec fn spec_advanced(s: SexpV) -> Seq<u8>
    decreases s,
{
    match s {
        SexpV::Atom(atom) => spec_advanced_atom(atom),
        SexpV::List(items) => seq![0x28] + spec_advanced_items(items) + seq![0x29],
    }
}

/// The representations of the elements, one space between each two.
pub open spec fn spec_advanced_items(items: Seq<SexpV>) -> Seq<u8>
    decreases items,
{
    if items.len() == 0 {
        Seq::empty()
    } else if items.len() == 1 {
        spec_advanced(items.last())
    } else {
        spec_advanced_items(items.drop_last()) + seq![0x20] + spec_advanced(items.last())
    }
}

/// The representations of a first element and the rest, with a space between
/// where there is a rest.
pub proof fn lemma_advanced_items_front(first: SexpV, rest: Seq<SexpV>)
    ensures
        spec_advanced_items(seq![first] + rest) == spec_advanced(first) + if rest.len() == 0 {
            Seq::<u8>::empty()
        } else {
            seq![0x20u8] + spec_advanced_items(rest)
        },
    decreases rest.len(),
{
    if rest.len() == 0 {
        assert(seq![first] + rest =~= seq![first]);
        assert(spec_advanced(first) + Seq::<u8>::empty() =~= spec_advanced(first));
    } else if rest.len() == 1 {
        let both = seq![first] + rest;
        assert(both.drop_last() =~= seq![first]);
        assert(both.last() == rest.last());
        assert(spec_advanced_items(seq![first]) == spec_advanced(first));
        assert(spec_advanced_items(rest) == spec_advanced(rest.last()));
        assert(spec_advanced_items(both) =~= spec_advanced(first) + (seq![0x20u8]
            + spec_advanced_items(rest)));
    } else {
        lemma_advanced_items_front(first, rest.drop_last());
        assert((seq![first] + rest).drop_last() =~= seq![first] + rest.drop_last());
        assert((seq![first] + rest).last() == rest.last());
        assert(spec_advanced_items(seq![first] + rest) =~= spec_advanced(first) + (seq![0x20u8]
            + spec_advanced_items(rest)));
    }
}

proof fn lemma_advanced_octets_nonempty(octets: Seq<u8>)
    ensures
        spec_advanced_octets(octets).len() >= 1,
{
}

/// One step left for a writer to take: an S-expression to write, the space
/// between two elements, or the parenthesis that closes a list.
enum Step<'a> {
    Node(&'a Sexp),
    Separator,
    Close,
}

/// What a step writes.
spec fn step_bytes(step: Step) -> Seq<u8> {
    match step {
        Step::Node(node) => spec_advanced(node@),
        Step::Separator => seq![0x20],
        Step::Close => seq![0x29],
    }
}

/// What the steps waiting on a writer's stack write, top first.
spec fn pending_bytes(stack: Seq<Step>) -> Seq<u8>
    decreases stack.len(),
{
    if stack.len() == 0 {
        Seq::empty()
    } else {
        step_bytes(stack.last()) + pending_bytes(stack.drop_last())
    }
}

/// Returns the advanced representation of the S-expression.
pub fn to_string(sexp: &Sexp) -> (r: String)
    ensures
        r@ == ascii_chars(spec_advanced(sexp@)),
{
    let octets = to_vec(sexp);
    string_of_octets(octets.as_slice())
}

/// Returns the advanced representation of the S-expression, as octets.
///
/// Every character written is ASCII, so this is [`to_string`] one octet per
/// character.
pub fn to_vec(sexp: &Sexp) -> (r: Vec<u8>)
    ensures
        r@ == spec_advanced(sexp@),
{
    let mut out: Vec<u8> = Vec::new();
    write_sexp(sexp, &mut out);
    assert(out@ =~= spec_advanced(sexp@));
    out
}

impl Sexp {
    /// Returns the advanced representation of the S-expression, as §6.4
    /// gives it, which is what [`to_string`] returns.
    pub fn to_string(&self) -> (r: String)
        ensures
            r@ == ascii_chars(spec_advanced(self@)),
    {
        to_string(self)
    }
}

/// Appends one S-expression, without recursing into its lists.
fn write_sexp(sexp: &Sexp, out: &mut Vec<u8>)
    ensures
        final(out)@ == old(out)@ + spec_advanced(sexp@),
{
    let mut stack: Vec<Step> = Vec::new();
    stack.push(Step::Node(sexp));
    let ghost start = out@;
    proof {
        assert(stack@.drop_last() =~= Seq::<Step>::empty());
        assert(pending_bytes(stack@.drop_last()) =~= Seq::<u8>::empty());
        assert(stack@.last() == Step::Node(sexp));
        assert(pending_bytes(stack@) =~= spec_advanced(sexp@));
    }
    while stack.len() > 0
        invariant
            out@ + pending_bytes(stack@) == start + spec_advanced(sexp@),
        decreases (start + spec_advanced(sexp@)).len() - out@.len(),
    {
        take_step(&mut stack, out);
    }
}

/// Takes the step on top of the stack: writes a space, a closing parenthesis
/// or an octet string, or opens a list and leaves its elements, the spaces
/// between them and its closing parenthesis to be written.
fn take_step<'a>(stack: &mut Vec<Step<'a>>, out: &mut Vec<u8>)
    requires
        old(stack)@.len() > 0,
    ensures
        final(out)@ + pending_bytes(final(stack)@) == old(out)@ + pending_bytes(old(stack)@),
        final(out)@.len() > old(out)@.len(),
{
    let ghost before = stack@;
    let ghost written = out@;
    let step = stack.pop().unwrap();
    proof {
        assert(stack@ =~= before.drop_last());
    }
    match step {
        Step::Separator => {
            out.push(0x20);
            assert(out@ =~= written + seq![0x20u8]);
        },
        Step::Close => {
            out.push(0x29);
            assert(out@ =~= written + seq![0x29u8]);
        },
        Step::Node(Sexp::Atom(atom)) => {
            write_atom(atom, out);
            proof {
                lemma_advanced_octets_nonempty(atom@.data);
            }
        },
        Step::Node(Sexp::List(items)) => {
            out.push(0x28);
            let ghost base = stack@;
            let ghost item_views = views(items@);
            let ghost n = items.len() as int;
            proof {
                lemma_list_view(*items);
            }
            stack.push(Step::Close);
            proof {
                assert(stack@.drop_last() =~= base);
                assert(item_views.subrange(n, n) =~= Seq::<SexpV>::empty());
                assert(pending_bytes(stack@) =~= Seq::<u8>::empty()
                    + spec_advanced_items(item_views.subrange(n, n)) + seq![0x29u8]
                    + pending_bytes(base));
            }
            let mut index: usize = items.len();
            while index > 0
                invariant
                    index <= items.len(),
                    n == items.len(),
                    item_views == views(items@),
                    pending_bytes(stack@) == (if 0 < index < n {
                        seq![0x20u8]
                    } else {
                        Seq::<u8>::empty()
                    }) + spec_advanced_items(item_views.subrange(index as int, n))
                        + seq![0x29u8] + pending_bytes(base),
                decreases index,
            {
                let ghost prior = stack@;
                index = index - 1;
                stack.push(Step::Node(&items[index]));
                proof {
                    assert(stack@.drop_last() =~= prior);
                    let tail = item_views.subrange(index + 1, n);
                    assert(item_views.subrange(index as int, n) =~= seq![item_views[index as int]]
                        + tail);
                    lemma_advanced_items_front(item_views[index as int], tail);
                    assert(pending_bytes(stack@) =~= spec_advanced_items(
                        item_views.subrange(index as int, n),
                    ) + seq![0x29u8] + pending_bytes(base));
                }
                if index > 0 {
                    let ghost prior = stack@;
                    stack.push(Step::Separator);
                    proof {
                        assert(stack@.drop_last() =~= prior);
                        assert(pending_bytes(stack@) =~= seq![0x20u8] + spec_advanced_items(
                            item_views.subrange(index as int, n),
                        ) + seq![0x29u8] + pending_bytes(base));
                    }
                } else {
                    assert(pending_bytes(stack@) =~= Seq::<u8>::empty() + spec_advanced_items(
                        item_views.subrange(index as int, n),
                    ) + seq![0x29u8] + pending_bytes(base));
                }
            }
            proof {
                assert(item_views.subrange(0, n) =~= item_views);
                assert(written + pending_bytes(before) =~= out@ + pending_bytes(stack@));
            }
        },
    }
}

/// The advanced representation of an S-expression, handed out a piece at a
/// time: a parenthesis, a space, or one octet string with its display hint.
///
/// Only the piece in hand and the lists still open are held, so the whole
/// representation never is, and a caller may pass each piece on as it comes.
pub struct Pieces<'a> {
    stack: Vec<Step<'a>>,
}

impl<'a> View for Pieces<'a> {
    type V = Seq<u8>;

    /// The octets still to be handed out.
    closed spec fn view(&self) -> Seq<u8> {
        pending_bytes(self.stack@)
    }
}

/// Returns the advanced representation of the S-expression, to be handed out
/// a piece at a time.
pub fn pieces(sexp: &Sexp) -> (r: Pieces<'_>)
    ensures
        r@ == spec_advanced(sexp@),
{
    let mut stack: Vec<Step> = Vec::new();
    stack.push(Step::Node(sexp));
    proof {
        assert(stack@.drop_last() =~= Seq::<Step>::empty());
        assert(pending_bytes(stack@.drop_last()) =~= Seq::<u8>::empty());
        assert(pending_bytes(stack@) =~= spec_advanced(sexp@));
    }
    Pieces { stack }
}

impl<'a> Pieces<'a> {
    /// Returns the next piece of the representation, never empty, or `None`
    /// once all of it has been handed out.
    pub fn next(&mut self) -> (r: Option<Vec<u8>>)
        ensures
            match r {
                None => old(self)@.len() == 0 && final(self)@.len() == 0,
                Some(piece) => piece@.len() > 0 && old(self)@ == piece@ + final(self)@,
            },
    {
        if self.stack.len() == 0 {
            return None;
        }
        let mut piece: Vec<u8> = Vec::new();
        take_step(&mut self.stack, &mut piece);
        assert(Seq::<u8>::empty() + pending_bytes(old(self).stack@) =~= pending_bytes(
            old(self).stack@,
        ));
        Some(piece)
    }
}

/// Appends one octet string, preceded by its display hint if it has one.
fn write_atom(atom: &Atom, out: &mut Vec<u8>)
    ensures
        final(out)@ == old(out)@ + spec_advanced_atom(atom@),
{
    match atom.hint() {
        Some(hint) => {
            out.push(0x5b);
            write_octet_string(hint, out);
            out.push(0x5d);
            write_octet_string(atom.data(), out);
            assert(final(out)@ =~= old(out)@ + spec_advanced_atom(atom@));
        },
        None => {
            write_octet_string(atom.data(), out);
        },
    }
}

/// Appends the octets as they stand.
fn push_all(octets: &[u8], out: &mut Vec<u8>)
    ensures
        final(out)@ == old(out)@ + octets@,
{
    let mut index: usize = 0;
    while index < octets.len()
        invariant
            index <= octets.len(),
            out@ == old(out)@ + octets@.take(index as int),
        decreases octets.len() - index,
    {
        out.push(octets[index]);
        index = index + 1;
        assert(out@ =~= old(out)@ + octets@.take(index as int));
    }
    assert(octets@.take(octets.len() as int) =~= octets@);
}

/// Appends one octet string in the shortest form that suits its octets.
fn write_octet_string(octets: &[u8], out: &mut Vec<u8>)
    ensures
        final(out)@ == old(out)@ + spec_advanced_octets(octets@),
{
    if qualifies_as_token(octets) {
        push_all(octets, out);
        return;
    }
    if all_text(octets) {
        write_quoted_string(octets, out);
        return;
    }
    write_hexadecimal(octets, out);
}

/// Returns `true` if every octet reads as text.
fn all_text(octets: &[u8]) -> (r: bool)
    ensures
        r == spec_all_text(octets@),
{
    let mut index: usize = 0;
    while index < octets.len()
        invariant
            index <= octets.len(),
            forall|i: int| 0 <= i < index ==> #[trigger] spec_is_text(octets@[i]),
        decreases octets.len() - index,
    {
        if !is_text(octets[index]) {
            return false;
        }
        index = index + 1;
    }
    true
}

/// Returns the letter §4.2 escapes a control character by.
fn escape_letter(octet: u8) -> (r: Option<u8>)
    ensures
        r == spec_escape_letter(octet),
{
    if octet == 0x07 {
        Some(0x61)
    } else if octet == 0x08 {
        Some(0x62)
    } else if octet == 0x09 {
        Some(0x74)
    } else if octet == 0x0a {
        Some(0x6e)
    } else if octet == 0x0b {
        Some(0x76)
    } else if octet == 0x0c {
        Some(0x66)
    } else if octet == 0x0d {
        Some(0x72)
    } else {
        None
    }
}

/// Appends one octet string as a quoted string (§4.2).
fn write_quoted_string(octets: &[u8], out: &mut Vec<u8>)
    ensures
        final(out)@ == old(out)@ + spec_quoted(octets@),
{
    out.push(0x22);
    let ghost prefix = out@;
    let mut index: usize = 0;
    while index < octets.len()
        invariant
            index <= octets.len(),
            out@ == prefix + spec_quoted_body(octets@.take(index as int)),
        decreases octets.len() - index,
    {
        let octet = octets[index];
        let ghost written = out@;
        match escape_letter(octet) {
            Some(letter) => {
                out.push(0x5c);
                out.push(letter);
            },
            None => {
                if octet == 0x22 || octet == 0x5c {
                    out.push(0x5c);
                }
                out.push(octet);
            },
        }
        proof {
            assert(out@ =~= written + spec_quoted_octet(octet));
            assert(octets@.take(index + 1).drop_last() =~= octets@.take(index as int));
        }
        index = index + 1;
    }
    out.push(0x22);
    assert(octets@.take(octets.len() as int) =~= octets@);
    assert(final(out)@ =~= old(out)@ + spec_quoted(octets@));
}

/// Returns the lowercase hexadecimal digit for a value below sixteen.
fn hex_digit(value: u8) -> (r: u8)
    requires
        value < 16,
    ensures
        r == spec_hex_digit(value),
{
    if value < 10 {
        0x30 + value
    } else {
        0x61 + value - 10
    }
}

/// Appends one octet string in hexadecimal (§4.4).
fn write_hexadecimal(octets: &[u8], out: &mut Vec<u8>)
    ensures
        final(out)@ == old(out)@ + spec_hexadecimal(octets@),
{
    out.push(0x23);
    let ghost prefix = out@;
    let mut index: usize = 0;
    while index < octets.len()
        invariant
            index <= octets.len(),
            out@ == prefix + spec_hex_body(octets@.take(index as int)),
        decreases octets.len() - index,
    {
        let octet = octets[index];
        let ghost written = out@;
        assert(octet >> 4u8 < 16 && octet & 15u8 < 16) by (bit_vector);
        out.push(hex_digit(octet >> 4u8));
        out.push(hex_digit(octet & 15u8));
        proof {
            assert(octets@.take(index + 1).drop_last() =~= octets@.take(index as int));
            assert(out@ =~= prefix + spec_hex_body(octets@.take(index + 1)));
        }
        index = index + 1;
    }
    out.push(0x23);
    assert(octets@.take(octets.len() as int) =~= octets@);
    assert(final(out)@ =~= old(out)@ + spec_hexadecimal(octets@));
}

/// Returns `true` if the octet may stand in a quoted string as itself or as a
/// one-letter escape.
pub fn is_text(octet: u8) -> (r: bool)
    ensures
        r == spec_is_text(octet),
{
    let printable = 0x20 <= octet && octet <= 0x7e;
    printable || escape_letter(octet).is_some()
}

/// Every octet is printable ASCII, from the space to the tilde.
pub open spec fn spec_printable(octets: Seq<u8>) -> bool {
    forall|i: int| 0 <= i < octets.len() ==> 0x20 <= #[trigger] octets[i] <= 0x7e
}

/// Two runs of printable octets, one after the other, are printable.
proof fn lemma_printable_join(first: Seq<u8>, second: Seq<u8>)
    requires
        spec_printable(first),
        spec_printable(second),
    ensures
        spec_printable(first + second),
{
    assert forall|i: int| 0 <= i < (first + second).len() implies 0x20 <= #[trigger] (first
        + second)[i] <= 0x7e by {
        if i >= first.len() {
            assert((first + second)[i] == second[i - first.len()]);
        }
    }
}

/// A quoted string's body is printable.
proof fn lemma_quoted_body_printable(octets: Seq<u8>)
    requires
        spec_all_text(octets),
    ensures
        spec_printable(spec_quoted_body(octets)),
    decreases octets.len(),
{
    if octets.len() > 0 {
        assert(spec_all_text(octets.drop_last()));
        lemma_quoted_body_printable(octets.drop_last());
        assert(spec_is_text(octets[octets.len() - 1]));
        lemma_printable_join(spec_quoted_body(octets.drop_last()), spec_quoted_octet(octets.last()));
    }
}

/// A hexadecimal string's digits are printable.
proof fn lemma_hex_body_printable(octets: Seq<u8>)
    ensures
        spec_printable(spec_hex_body(octets)),
    decreases octets.len(),
{
    if octets.len() > 0 {
        lemma_hex_body_printable(octets.drop_last());
        let last = octets.last();
        assert(last >> 4u8 < 16 && last & 15u8 < 16) by (bit_vector);
        lemma_printable_join(
            spec_hex_body(octets.drop_last()),
            seq![spec_hex_digit(last >> 4u8), spec_hex_digit(last & 15u8)],
        );
    }
}

/// The form an octet string takes is printable.
proof fn lemma_advanced_octets_printable(octets: Seq<u8>)
    ensures
        spec_printable(spec_advanced_octets(octets)),
{
    if spec_qualifies_as_token(octets) {
        assert forall|i: int| 0 <= i < octets.len() implies 0x20 <= #[trigger] octets[i] <= 0x7e by {
            assert(crate::syntax::spec_is_token(octets[i]));
        }
    } else if spec_all_text(octets) {
        lemma_quoted_body_printable(octets);
        lemma_printable_join(seq![0x22u8], spec_quoted_body(octets));
        lemma_printable_join(seq![0x22u8] + spec_quoted_body(octets), seq![0x22u8]);
    } else {
        lemma_hex_body_printable(octets);
        lemma_printable_join(seq![0x23u8], spec_hex_body(octets));
        lemma_printable_join(seq![0x23u8] + spec_hex_body(octets), seq![0x23u8]);
    }
}

/// Every character of the advanced representation is printable ASCII, from
/// the space to the tilde.
pub proof fn lemma_advanced_printable(s: SexpV)
    ensures
        spec_printable(spec_advanced(s)),
    decreases s, 1int,
{
    match s {
        SexpV::Atom(atom) => {
            lemma_advanced_octets_printable(atom.data);
            if let Some(hint) = atom.hint {
                lemma_advanced_octets_printable(hint);
                let open = seq![0x5bu8] + spec_advanced_octets(hint);
                lemma_printable_join(seq![0x5bu8], spec_advanced_octets(hint));
                lemma_printable_join(open, seq![0x5du8]);
                lemma_printable_join(open + seq![0x5du8], spec_advanced_octets(atom.data));
            }
        },
        SexpV::List(items) => {
            lemma_advanced_items_printable(items);
            lemma_printable_join(seq![0x28u8], spec_advanced_items(items));
            lemma_printable_join(seq![0x28u8] + spec_advanced_items(items), seq![0x29u8]);
        },
    }
}

/// The elements' representations, with the spaces between them, are
/// printable.
proof fn lemma_advanced_items_printable(items: Seq<SexpV>)
    ensures
        spec_printable(spec_advanced_items(items)),
    decreases items, 0int,
{
    if items.len() == 1 {
        lemma_advanced_printable(items.last());
    } else if items.len() > 1 {
        lemma_advanced_items_printable(items.drop_last());
        lemma_advanced_printable(items.last());
        lemma_printable_join(spec_advanced_items(items.drop_last()), seq![0x20u8]);
        lemma_printable_join(
            spec_advanced_items(items.drop_last()) + seq![0x20u8],
            spec_advanced(items.last()),
        );
    }
}

} // verus!
