//! The canonical representation (RFC 9804, §6.2).
//!
//! §6.2 writes every octet string verbatim, as its length in decimal, a colon,
//! and the octets themselves, and it writes every list as its elements between
//! parentheses with nothing separating them. A display hint is written the
//! same way, in square brackets, immediately before the octet string it
//! qualifies.
//!
//! One S-expression has exactly one canonical representation, which is why
//! §6.2 makes it the form to hash or sign. Nothing about it is negotiable, so
//! nothing here is configurable. Two S-expressions that compare equal have
//! equal canonical representations, and two that differ have different ones.

use vstd::prelude::*;

use crate::types::atom::{Atom, AtomV};
use crate::types::sexp::{
    lemma_list_view, saturated, spec_preorder, spec_preorder_of_items, views, Sexp, SexpV,
};

verus! {

/// A length in decimal, with no leading zero, as §7.2 requires.
pub open spec fn spec_decimal(value: nat) -> Seq<u8>
    decreases value,
{
    if value < 10 {
        seq![(0x30 + value) as u8]
    } else {
        spec_decimal(value / 10).push((0x30 + value % 10) as u8)
    }
}

/// One octet string written verbatim, as §4.1 gives it: its length, a colon,
/// and the octets.
pub open spec fn spec_verbatim(octets: Seq<u8>) -> Seq<u8> {
    spec_decimal(octets.len()) + seq![0x3a] + octets
}

/// One atom, preceded by its display hint in brackets if it has one.
pub open spec fn spec_canonical_atom(atom: AtomV) -> Seq<u8> {
    match atom.hint {
        Some(hint) => seq![0x5b] + spec_verbatim(hint) + seq![0x5d] + spec_verbatim(atom.data),
        None => spec_verbatim(atom.data),
    }
}

/// The canonical representation of an S-expression: an atom as above, and a
/// list as its elements between parentheses with nothing between them.
pub open spec fn spec_canonical(s: SexpV) -> Seq<u8>
    decreases s,
{
    match s {
        SexpV::Atom(atom) => spec_canonical_atom(atom),
        SexpV::List(items) => seq![0x28] + spec_canonical_items(items) + seq![0x29],
    }
}

/// The canonical representations of the elements, one after another.
pub open spec fn spec_canonical_items(items: Seq<SexpV>) -> Seq<u8>
    decreases items,
{
    if items.len() == 0 {
        Seq::empty()
    } else {
        spec_canonical_items(items.drop_last()) + spec_canonical(items.last())
    }
}

/// The representations of a first element and the rest, one after the other.
pub proof fn lemma_canonical_items_front(first: SexpV, rest: Seq<SexpV>)
    ensures
        spec_canonical_items(seq![first] + rest) == spec_canonical(first)
            + spec_canonical_items(rest),
    decreases rest.len(),
{
    if rest.len() == 0 {
        assert(seq![first] + rest =~= seq![first]);
        assert(seq![first].drop_last() =~= Seq::<SexpV>::empty());
        assert(spec_canonical_items(Seq::<SexpV>::empty()) =~= Seq::<u8>::empty());
        assert(spec_canonical_items(seq![first]) =~= spec_canonical(first));
        assert(spec_canonical(first) + spec_canonical_items(rest) =~= spec_canonical(first));
    } else {
        lemma_canonical_items_front(first, rest.drop_last());
        assert((seq![first] + rest).drop_last() =~= seq![first] + rest.drop_last());
        assert((seq![first] + rest).last() == rest.last());
        assert(spec_canonical_items(seq![first] + rest) =~= spec_canonical(first)
            + spec_canonical_items(rest));
    }
}

/// One step left for a writer to take: an S-expression to write, or the
/// parenthesis that closes a list.
enum Step<'a> {
    Node(&'a Sexp),
    Close,
}

/// What a step writes.
spec fn step_bytes(step: Step) -> Seq<u8> {
    match step {
        Step::Node(node) => spec_canonical(node@),
        Step::Close => seq![0x29],
    }
}

/// What the steps waiting on a writer's stack write, top first.
spec fn pending_bytes(stack: Seq<Step>) -> Seq<u8>
    decreases stack.len(),
{
    if stack.len() == 0 {
        Seq::empty()
    } else {
        step_bytes(stack.last()) + pending_bytes(stack.drop_last())
    }
}

/// A number has at least one decimal digit, never more digits than the
/// number itself once it is positive, and two or more from ten on.
pub proof fn lemma_decimal_len(value: nat)
    ensures
        1 <= spec_decimal(value).len() <= value + 1,
        value >= 1 ==> spec_decimal(value).len() <= value,
        value >= 10 ==> spec_decimal(value).len() >= 2,
    decreases value,
{
    if value >= 10 {
        lemma_decimal_len(value / 10);
    }
}

/// Returns the canonical representation of the S-expression.
pub fn to_vec(sexp: &Sexp) -> (r: Vec<u8>)
    ensures
        r@ == spec_canonical(sexp@),
{
    let mut out: Vec<u8> = Vec::with_capacity(encoded_len(sexp));
    let mut stack: Vec<Step> = Vec::new();
    stack.push(Step::Node(sexp));
    proof {
        assert(stack@.drop_last() =~= Seq::<Step>::empty());
        assert(pending_bytes(stack@.drop_last()) =~= Seq::<u8>::empty());
        assert(stack@.last() == Step::Node(sexp));
        assert(pending_bytes(stack@) =~= spec_canonical(sexp@));
    }
    while stack.len() > 0
        invariant
            out@ + pending_bytes(stack@) == spec_canonical(sexp@),
        decreases spec_canonical(sexp@).len() - out@.len(),
    {
        take_step(&mut stack, &mut out);
    }
    out
}

/// Takes the step on top of the stack: writes a closing parenthesis, or an
/// octet string, or opens a list and leaves its elements and its closing
/// parenthesis to be written.
fn take_step<'a>(stack: &mut Vec<Step<'a>>, out: &mut Vec<u8>)
    requires
        old(stack)@.len() > 0,
    ensures
        final(out)@ + pending_bytes(final(stack)@) == old(out)@ + pending_bytes(old(stack)@),
        final(out)@.len() > old(out)@.len(),
{
    let ghost before = stack@;
    let ghost written = out@;
    let step = stack.pop().unwrap();
    proof {
        assert(stack@ =~= before.drop_last());
    }
    match step {
        Step::Close => {
            out.push(0x29);
            assert(out@ =~= written + seq![0x29u8]);
        },
        Step::Node(Sexp::Atom(atom)) => {
            write_atom(atom, out);
            proof {
                lemma_decimal_len(atom@.data.len());
            }
        },
        Step::Node(Sexp::List(items)) => {
            out.push(0x28);
            let ghost base = stack@;
            let ghost item_views = views(items@);
            proof {
                lemma_list_view(*items);
            }
            stack.push(Step::Close);
            proof {
                assert(stack@.drop_last() =~= base);
                assert(item_views.subrange(items.len() as int, items.len() as int)
                    =~= Seq::<SexpV>::empty());
            }
            let mut index: usize = items.len();
            while index > 0
                invariant
                    index <= items.len(),
                    item_views == views(items@),
                    pending_bytes(stack@) == spec_canonical_items(
                        item_views.subrange(index as int, items.len() as int),
                    ) + seq![0x29u8] + pending_bytes(base),
                decreases index,
            {
                let ghost prior = stack@;
                index = index - 1;
                stack.push(Step::Node(&items[index]));
                proof {
                    assert(stack@.drop_last() =~= prior);
                    let tail = item_views.subrange(index + 1, items.len() as int);
                    assert(item_views.subrange(index as int, items.len() as int)
                        =~= seq![item_views[index as int]] + tail);
                    lemma_canonical_items_front(item_views[index as int], tail);
                    assert(pending_bytes(stack@) =~= spec_canonical_items(
                        item_views.subrange(index as int, items.len() as int),
                    ) + seq![0x29u8] + pending_bytes(base));
                }
            }
            proof {
                assert(item_views.subrange(0, items.len() as int) =~= item_views);
                assert(written + pending_bytes(before) =~= out@ + pending_bytes(stack@));
            }
        },
    }
}

/// The canonical representation of an S-expression, handed out a piece at a
/// time: a parenthesis, or one octet string with its display hint.
///
/// Only the piece in hand and the lists still open are held, so the whole
/// representation never is, and a caller may pass each piece on as it comes.
pub struct Pieces<'a> {
    stack: Vec<Step<'a>>,
}

impl<'a> View for Pieces<'a> {
    type V = Seq<u8>;

    /// The octets still to be handed out.
    closed spec fn view(&self) -> Seq<u8> {
        pending_bytes(self.stack@)
    }
}

/// Returns the canonical representation of the S-expression, to be handed
/// out a piece at a time.
pub fn pieces(sexp: &Sexp) -> (r: Pieces<'_>)
    ensures
        r@ == spec_canonical(sexp@),
{
    let mut stack: Vec<Step> = Vec::new();
    stack.push(Step::Node(sexp));
    proof {
        assert(stack@.drop_last() =~= Seq::<Step>::empty());
        assert(pending_bytes(stack@.drop_last()) =~= Seq::<u8>::empty());
        assert(pending_bytes(stack@) =~= spec_canonical(sexp@));
    }
    Pieces { stack }
}

impl<'a> Pieces<'a> {
    /// Returns the next piece of the representation, never empty, or `None`
    /// once all of it has been handed out.
    pub fn next(&mut self) -> (r: Option<Vec<u8>>)
        ensures
            match r {
                None => old(self)@.len() == 0 && final(self)@.len() == 0,
                Some(piece) => piece@.len() > 0 && old(self)@ == piece@ + final(self)@,
            },
    {
        if self.stack.len() == 0 {
            return None;
        }
        let mut piece: Vec<u8> = Vec::new();
        take_step(&mut self.stack, &mut piece);
        assert(Seq::<u8>::empty() + pending_bytes(old(self).stack@) =~= pending_bytes(
            old(self).stack@,
        ));
        Some(piece)
    }
}

/// Appends one octet string, preceded by its display hint if it has one.
fn write_atom(atom: &Atom, out: &mut Vec<u8>)
    ensures
        final(out)@ == old(out)@ + spec_canonical_atom(atom@),
{
    match atom.hint() {
        Some(hint) => {
            out.push(0x5b);
            write_octet_string(hint, out);
            out.push(0x5d);
            write_octet_string(atom.data(), out);
            assert(final(out)@ =~= old(out)@ + spec_canonical_atom(atom@));
        },
        None => {
            write_octet_string(atom.data(), out);
        },
    }
}

/// Appends one octet string verbatim, as §4.1 gives it.
fn write_octet_string(octets: &[u8], out: &mut Vec<u8>)
    ensures
        final(out)@ == old(out)@ + spec_verbatim(octets@),
{
    write_decimal(octets.len(), out);
    out.push(0x3a);
    let mut index: usize = 0;
    let ghost prefix = out@;
    while index < octets.len()
        invariant
            index <= octets.len(),
            out@ == prefix + octets@.take(index as int),
        decreases octets.len() - index,
    {
        out.push(octets[index]);
        index = index + 1;
        assert(out@ =~= prefix + octets@.take(index as int));
    }
    assert(octets@.take(octets.len() as int) =~= octets@);
    assert(out@ =~= old(out)@ + spec_verbatim(octets@));
}

/// Appends a length in decimal, with no leading zero, as §7.2 requires.
pub fn write_decimal(value: usize, out: &mut Vec<u8>)
    ensures
        final(out)@ == old(out)@ + spec_decimal(value as nat),
    decreases value,
{
    if value >= 10 {
        write_decimal(value / 10, out);
    }
    out.push(0x30 + (value % 10) as u8);
    assert(final(out)@ =~= old(out)@ + spec_decimal(value as nat));
}

/// Returns how many digits a length occupies in decimal.
pub fn decimal_len(value: usize) -> (r: usize)
    ensures
        r == spec_decimal(value as nat).len(),
{
    let mut digits: usize = 1;
    let mut rest = value;
    proof {
        lemma_decimal_len(value as nat);
    }
    while rest >= 10
        invariant
            digits + spec_decimal(rest as nat).len() - 1 == spec_decimal(value as nat).len(),
            1 <= digits <= spec_decimal(value as nat).len(),
            rest <= value,
            value >= 1 ==> spec_decimal(value as nat).len() <= value,
        decreases rest,
    {
        proof {
            lemma_decimal_len((rest / 10) as nat);
            lemma_decimal_len(rest as nat);
        }
        rest = rest / 10;
        digits = digits + 1;
    }
    digits
}

/// Returns how many octets one verbatim octet string occupies.
fn octet_string_len(octets: &[u8]) -> (r: usize)
    ensures
        r == saturated(spec_verbatim(octets@).len() as int),
{
    // One octet for the colon.
    decimal_len(octets.len()).saturating_add(1).saturating_add(octets.len())
}

/// Returns how many octets one atom occupies, hint included.
fn atom_len(atom: &Atom) -> (r: usize)
    ensures
        r == saturated(spec_canonical_atom(atom@).len() as int),
{
    let data = octet_string_len(atom.data());
    match atom.hint() {
        // Two octets for the brackets around the hint.
        Some(hint) => data.saturating_add(octet_string_len(hint)).saturating_add(2),
        None => data,
    }
}

/// What one node of a prefix traversal adds to the canonical length: both
/// parentheses of a list, or the whole of an atom.
spec fn node_len(node: SexpV) -> int {
    match node {
        SexpV::List(_) => 2,
        SexpV::Atom(atom) => spec_canonical_atom(atom).len() as int,
    }
}

/// What the nodes of a prefix traversal add up to.
spec fn nodes_len(nodes: Seq<SexpV>) -> int
    decreases nodes.len(),
{
    if nodes.len() == 0 {
        0
    } else {
        nodes_len(nodes.drop_last()) + node_len(nodes.last())
    }
}

proof fn lemma_nodes_len_append(first: Seq<SexpV>, second: Seq<SexpV>)
    ensures
        nodes_len(first + second) == nodes_len(first) + nodes_len(second),
    decreases second.len(),
{
    if second.len() == 0 {
        assert(first + second =~= first);
    } else {
        lemma_nodes_len_append(first, second.drop_last());
        assert((first + second).drop_last() =~= first + second.drop_last());
    }
}

proof fn lemma_nodes_len_nonnegative(nodes: Seq<SexpV>)
    ensures
        nodes_len(nodes) >= 0,
    decreases nodes.len(),
{
    if nodes.len() > 0 {
        lemma_nodes_len_nonnegative(nodes.drop_last());
    }
}

/// The canonical length of an S-expression is what the nodes of its prefix
/// order add up to.
proof fn lemma_canonical_len(s: SexpV)
    ensures
        spec_canonical(s).len() == nodes_len(spec_preorder(s)),
    decreases s,
{
    match s {
        SexpV::Atom(_) => {
            assert(spec_preorder(s).drop_last() =~= Seq::<SexpV>::empty());
            assert(nodes_len(spec_preorder(s).drop_last()) == 0);
        },
        SexpV::List(items) => {
            lemma_canonical_items_len(items);
            lemma_nodes_len_append(seq![s], spec_preorder_of_items(items));
            assert(seq![s].drop_last() =~= Seq::<SexpV>::empty());
            assert(nodes_len(seq![s].drop_last()) == 0);
        },
    }
}

proof fn lemma_canonical_items_len(items: Seq<SexpV>)
    ensures
        spec_canonical_items(items).len() == nodes_len(spec_preorder_of_items(items)),
    decreases items,
{
    if items.len() > 0 {
        lemma_canonical_items_len(items.drop_last());
        lemma_canonical_len(items.last());
        lemma_nodes_len_append(
            spec_preorder_of_items(items.drop_last()),
            spec_preorder(items.last()),
        );
    }
}

/// Returns how many octets the canonical representation occupies.
///
/// This is what [`to_vec`] allocates, and it is exact rather than an estimate,
/// so an application that caps the size of what it emits can measure before
/// writing. A length past the largest `usize` is reported as the largest
/// `usize`.
pub fn encoded_len(sexp: &Sexp) -> (r: usize)
    ensures
        r == saturated(spec_canonical(sexp@).len() as int),
{
    let mut len: usize = 0;
    let mut nodes = sexp.preorder();
    let ghost visited: Seq<SexpV> = Seq::empty();
    proof {
        lemma_canonical_len(sexp@);
    }
    loop
        invariant
            visited + nodes@ == spec_preorder(sexp@),
            len == saturated(nodes_len(visited)),
        ensures
            visited == spec_preorder(sexp@),
            len == saturated(nodes_len(visited)),
        decreases nodes@.len(),
    {
        let ghost waiting = nodes@;
        match nodes.next() {
            None => {
                proof {
                    assert(visited =~= spec_preorder(sexp@));
                }
                break;
            },
            Some(node) => {
                let add = match node {
                    // One octet for each parenthesis.
                    Sexp::List(_) => 2,
                    Sexp::Atom(atom) => atom_len(atom),
                };
                proof {
                    lemma_nodes_len_nonnegative(visited);
                    assert((visited.push(node@)).drop_last() =~= visited);
                    assert(visited.push(node@) + nodes@ =~= visited + waiting);
                    visited = visited.push(node@);
                }
                len = len.saturating_add(add);
            },
        }
    }
    len
}

} // verus!
