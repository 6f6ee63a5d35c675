//! S-expressions.
//!
//! An S-expression is either an octet string or a list of simpler
//! S-expressions (RFC 9804, §2). This module provides that value as [`Sexp`],
//! pairing the octet string of [`Atom`] with a list holding S-expressions of
//! either kind.
//!
//! §5 gives a list no meaning of its own. It is an ordered sequence, it may be
//! empty, and whatever its position or its first element signifies belongs to
//! the application. Nothing here interprets one.

use vstd::prelude::*;
use vstd::string::StringSliceAdditionalSpecFns;

use crate::types::atom::{Atom, AtomV};

verus! {

/// The value an S-expression stands for: an atom, or a list of values.
pub ghost enum SexpV {
    Atom(AtomV),
    List(Seq<SexpV>),
}

/// An S-expression, either an octet string or a list of S-expressions.
///
/// RFC 9804 §2 admits exactly these two cases, so the enum is closed and both
/// variants are public. Two S-expressions are equal when they are the same
/// case and their contents are equal. Lists compare element by element, in
/// order. An atom is never equal to a list, not even to a list holding only
/// that atom.
///
/// Encoding, parsing, [`Sexp::depth`] and [`Sexp::preorder`] work without
/// recursion, so they consume no stack in proportion to how deeply lists
/// nest. Cloning, comparing and dropping recurse once per level.
#[derive(PartialEq, Eq, Hash, Debug)]
pub enum Sexp {
    /// An octet string, carrying an optional display hint (§4.6).
    Atom(Atom),
    /// A list of S-expressions, possibly empty (§5).
    List(Vec<Sexp>),
}

impl View for Sexp {
    type V = SexpV;

    open spec fn view(&self) -> SexpV {
        sexp_view(*self)
    }
}

/// The value of an S-expression.
pub open spec fn sexp_view(s: Sexp) -> SexpV
    decreases s, 0nat,
{
    match s {
        Sexp::Atom(a) => SexpV::Atom(a@),
        Sexp::List(items) => SexpV::List(views_upto(items@, items@.len())),
    }
}

/// The values of the first `n` of a sequence of S-expressions.
pub open spec fn views_upto(items: Seq<Sexp>, n: nat) -> Seq<SexpV>
    decreases items, n,
{
    if n == 0 || n > items.len() {
        Seq::empty()
    } else {
        views_upto(items, (n - 1) as nat).push(sexp_view(items[n - 1]))
    }
}

/// The values of a sequence of S-expressions.
pub open spec fn views(items: Seq<Sexp>) -> Seq<SexpV> {
    Seq::new(items.len(), |i: int| items[i]@)
}

/// The first `n` values are the values of the first `n` S-expressions.
proof fn lemma_views_upto(items: Seq<Sexp>, n: nat)
    requires
        n <= items.len(),
    ensures
        views_upto(items, n) == views(items).take(n as int),
    decreases n,
{
    if n > 0 {
        lemma_views_upto(items, (n - 1) as nat);
        assert(views_upto(items, n) =~= views(items).take(n as int));
    } else {
        assert(views_upto(items, n) =~= views(items).take(n as int));
    }
}

/// A list's value is the list of its elements' values.
pub proof fn lemma_list_view(items: Vec<Sexp>)
    ensures
        Sexp::List(items)@ == SexpV::List(views(items@)),
{
    lemma_views_upto(items@, items@.len());
    assert(views(items@).take(items@.len() as int) =~= views(items@));
}

/// Pushing one S-expression onto a sequence pushes its value onto the values.
pub proof fn lemma_views_push(items: Seq<Sexp>, item: Sexp)
    ensures
        views(items.push(item)) == views(items).push(item@),
{
    assert(views(items.push(item)) =~= views(items).push(item@));
}

/// How deeply lists nest, counting the outermost list as one: zero for an
/// atom, and one more than the deepest element for a list.
pub open spec fn spec_depth(s: SexpV) -> nat
    decreases s,
{
    match s {
        SexpV::Atom(_) => 0,
        SexpV::List(items) => 1 + spec_depth_of_items(items),
    }
}

/// The greatest depth among the elements, zero where there are none.
pub open spec fn spec_depth_of_items(items: Seq<SexpV>) -> nat
    decreases items,
{
    if items.len() == 0 {
        0
    } else {
        let rest = spec_depth_of_items(items.drop_last());
        let last = spec_depth(items.last());
        if rest >= last {
            rest
        } else {
            last
        }
    }
}

/// The S-expression and everything within it, in depth-first prefix order:
/// a list before its elements, and each element before that element's own.
pub open spec fn spec_preorder(s: SexpV) -> Seq<SexpV>
    decreases s,
{
    match s {
        SexpV::Atom(_) => seq![s],
        SexpV::List(items) => seq![s] + spec_preorder_of_items(items),
    }
}

/// The prefix orders of the elements, one after another.
pub open spec fn spec_preorder_of_items(items: Seq<SexpV>) -> Seq<SexpV>
    decreases items,
{
    if items.len() == 0 {
        Seq::empty()
    } else {
        spec_preorder_of_items(items.drop_last()) + spec_preorder(items.last())
    }
}

/// `usize` arithmetic that stops at the largest `usize`.
pub open spec fn saturated(value: int) -> int {
    if value <= usize::MAX {
        value
    } else {
        usize::MAX as int
    }
}

impl Clone for Sexp {
    /// Copies the S-expression, element by element.
    fn clone(&self) -> (r: Self)
        ensures
            r@ == self@,
        decreases self,
    {
        match self {
            Sexp::Atom(atom) => Sexp::Atom(atom.clone()),
            Sexp::List(items) => {
                let mut copied: Vec<Sexp> = Vec::with_capacity(items.len());
                let mut index: usize = 0;
                while index < items.len()
                    invariant
                        *self == Sexp::List(*items),
                        index <= items.len(),
                        views(copied@) == views(items@).take(index as int),
                    decreases items.len() - index,
                {
                    proof {
                        assert(decreases_to!(*self => (*self)->List_0));
                        assert(decreases_to!(*items => items@));
                        assert(decreases_to!(items@ => items@[index as int]));
                    }
                    let item = items[index].clone();
                    proof {
                        lemma_views_push(copied@, item);
                    }
                    copied.push(item);
                    index = index + 1;
                    assert(views(copied@) =~= views(items@).take(index as int));
                }
                proof {
                    lemma_list_view(*items);
                    lemma_list_view(copied);
                    assert(views(items@).take(items.len() as int) =~= views(items@));
                }
                Sexp::List(copied)
            },
        }
    }
}

impl Sexp {
    /// Creates an atom without a display hint.
    ///
    /// To give an atom a display hint, build it with [`Atom::with_hint`] and
    /// convert the result, which `From<Atom>` does.
    pub fn atom(data: &[u8]) -> (r: Self)
        ensures
            r@ == SexpV::Atom(AtomV { data: data@, hint: None }),
    {
        Sexp::Atom(Atom::new(data))
    }

    /// Creates a list holding the given S-expressions, in order.
    ///
    /// RFC 9804 §5 admits a list of length zero.
    pub fn list(items: Vec<Sexp>) -> (r: Self)
        ensures
            r@ == SexpV::List(views(items@)),
    {
        proof {
            lemma_list_view(items);
        }
        Sexp::List(items)
    }

    /// Returns `true` if this is an atom.
    pub fn is_atom(&self) -> (r: bool)
        ensures
            r == (self@ is Atom),
    {
        match self {
            Sexp::Atom(_) => true,
            Sexp::List(_) => false,
        }
    }

    /// Returns `true` if this is a list.
    pub fn is_list(&self) -> (r: bool)
        ensures
            r == (self@ is List),
    {
        match self {
            Sexp::Atom(_) => false,
            Sexp::List(_) => true,
        }
    }

    /// Returns the atom, or `None` if this is a list.
    pub fn as_atom(&self) -> (r: Option<&Atom>)
        ensures
            r matches Some(a) ==> self@ == SexpV::Atom(a@),
            r is None <==> self@ is List,
    {
        match self {
            Sexp::Atom(atom) => Some(atom),
            Sexp::List(_) => None,
        }
    }

    /// Returns the list's elements, or `None` if this is an atom.
    ///
    /// The empty list yields an empty slice, which is distinct from the `None`
    /// an atom yields.
    pub fn as_list(&self) -> (r: Option<&[Sexp]>)
        ensures
            r matches Some(items) ==> self@ == SexpV::List(views(items@)),
            r is None <==> self@ is Atom,
    {
        match self {
            Sexp::Atom(_) => None,
            Sexp::List(items) => {
                proof {
                    lemma_list_view(*items);
                }
                Some(items.as_slice())
            },
        }
    }

    /// Consumes the S-expression and returns the atom, or `None` if it is a
    /// list.
    pub fn into_atom(self) -> (r: Option<Atom>)
        ensures
            r matches Some(a) ==> self@ == SexpV::Atom(a@),
            r is None <==> self@ is List,
    {
        match self {
            Sexp::Atom(atom) => Some(atom),
            Sexp::List(_) => None,
        }
    }

    /// Consumes the S-expression and returns the list's elements, or `None`
    /// if it is an atom.
    pub fn into_list(self) -> (r: Option<Vec<Sexp>>)
        ensures
            r matches Some(items) ==> self@ == SexpV::List(views(items@)),
            r is None <==> self@ is Atom,
    {
        match self {
            Sexp::Atom(_) => None,
            Sexp::List(items) => {
                proof {
                    lemma_list_view(items);
                }
                Some(items)
            },
        }
    }

    /// Returns the element at `index`, or `None` if this is an atom or the
    /// list is no longer than `index`.
    ///
    /// An atom holds no elements rather than being an element of itself, so
    /// indexing one yields `None` at every index.
    pub fn get(&self, index: usize) -> (r: Option<&Sexp>)
        ensures
            match self@ {
                SexpV::Atom(_) => r is None,
                SexpV::List(items) => if index < items.len() {
                    r matches Some(item) && item@ == items[index as int]
                } else {
                    r is None
                },
            },
    {
        match self {
            Sexp::Atom(_) => None,
            Sexp::List(items) => {
                proof {
                    lemma_list_view(*items);
                }
                if index < items.len() {
                    Some(&items[index])
                } else {
                    None
                }
            },
        }
    }

    /// Appends to a list, and replaces an atom with a list of what is
    /// appended.
    ///
    /// An atom holds no elements, so there is nothing to append to. Extending
    /// one discards it, which keeps the operation total.
    pub fn extend(&mut self, items: Vec<Sexp>)
        ensures
            final(self)@ == match old(self)@ {
                SexpV::List(existing) => SexpV::List(existing + views(items@)),
                SexpV::Atom(_) => SexpV::List(views(items@)),
            },
    {
        let mut items = items;
        let ghost added = items@;
        match self {
            Sexp::List(existing) => {
                proof {
                    lemma_list_view(*existing);
                }
                let ghost before = existing@;
                let ghost added = items@;
                existing.append(&mut items);
                proof {
                    lemma_list_view(*existing);
                    assert(views(existing@) =~= views(before) + views(added));
                }
            },
            Sexp::Atom(_) => {
                assert(items@ == added);
                *self = Sexp::list(items);
            },
        }
    }
}

/// How many S-expressions a value holds, itself included.
pub open spec fn spec_size(s: SexpV) -> nat
    decreases s,
{
    match s {
        SexpV::Atom(_) => 1,
        SexpV::List(items) => 1 + spec_size_of_items(items),
    }
}

/// How many S-expressions the elements hold between them.
pub open spec fn spec_size_of_items(items: Seq<SexpV>) -> nat
    decreases items,
{
    if items.len() == 0 {
        0
    } else {
        spec_size_of_items(items.drop_last()) + spec_size(items.last())
    }
}

/// What a node waiting at `enclosing` levels of nesting adds to the depth of
/// the whole.
spec fn depth_contribution(node: SexpV, enclosing: int) -> int {
    if node is List {
        enclosing + spec_depth(node)
    } else {
        0
    }
}

/// The greatest contribution among the nodes waiting on a traversal stack.
spec fn stack_depth(stack: Seq<(SexpV, int)>) -> int
    decreases stack.len(),
{
    if stack.len() == 0 {
        0
    } else {
        let rest = stack_depth(stack.drop_last());
        let last = depth_contribution(stack.last().0, stack.last().1);
        if rest >= last {
            rest
        } else {
            last
        }
    }
}

/// How many S-expressions the nodes on a traversal stack hold.
spec fn stack_size(stack: Seq<(SexpV, int)>) -> nat
    decreases stack.len(),
{
    if stack.len() == 0 {
        0
    } else {
        stack_size(stack.drop_last()) + spec_size(stack.last().0)
    }
}

/// The greatest contribution among elements all waiting at `enclosing`.
spec fn items_depth(items: Seq<SexpV>, enclosing: int) -> int
    decreases items.len(),
{
    if items.len() == 0 {
        0
    } else {
        let rest = items_depth(items.drop_last(), enclosing);
        let last = depth_contribution(items.last(), enclosing);
        if rest >= last {
            rest
        } else {
            last
        }
    }
}

proof fn lemma_items_depth(items: Seq<SexpV>, enclosing: int)
    requires
        enclosing >= 0,
    ensures
        (if enclosing >= items_depth(items, enclosing) {
            enclosing
        } else {
            items_depth(items, enclosing)
        }) == enclosing + spec_depth_of_items(items),
        items_depth(items, enclosing) >= 0,
    decreases items.len(),
{
    if items.len() > 0 {
        lemma_items_depth(items.drop_last(), enclosing);
        let last = items.last();
        if last is Atom {
            assert(spec_depth(last) == 0);
        }
    }
}

/// The view of a traversal stack of nodes and the nesting each waits at.
spec fn depth_stack_view(stack: Seq<(&Sexp, usize)>) -> Seq<(SexpV, int)> {
    Seq::new(stack.len(), |i: int| (stack[i].0@, stack[i].1 as int))
}

proof fn lemma_stack_depth_nonnegative(stack: Seq<(SexpV, int)>)
    ensures
        stack_depth(stack) >= 0,
    decreases stack.len(),
{
    if stack.len() > 0 {
        lemma_stack_depth_nonnegative(stack.drop_last());
    }
}

impl Sexp {
    /// Returns how deeply lists nest, counting the outermost list as one.
    ///
    /// An atom has depth zero, `()` and `(a b)` have depth one, and `((a))`
    /// has depth two. This is the quantity a parser bounds while parsing.
    ///
    /// The traversal is iterative, so it does not consume stack in proportion
    /// to the depth it reports. A depth past the largest `usize` is reported
    /// as the largest `usize`.
    pub fn depth(&self) -> (r: usize)
        ensures
            r == saturated(spec_depth(self@) as int),
    {
        let mut deepest: usize = 0;
        let mut stack: Vec<(&Sexp, usize)> = Vec::new();
        stack.push((self, 0));
        proof {
            let sv = depth_stack_view(stack@);
            assert(sv.drop_last() =~= Seq::<(SexpV, int)>::empty());
            assert(sv.last() == (self@, 0int));
            assert(stack_size(sv.drop_last()) == 0);
            assert(stack_depth(sv.drop_last()) == 0);
            assert(stack_size(sv) == spec_size(self@));
            assert(stack_depth(sv) == depth_contribution(self@, 0));
            if self@ is Atom {
                assert(spec_depth(self@) == 0);
            }
        }
        while stack.len() > 0
            invariant
                saturated(
                    if deepest as int >= stack_depth(depth_stack_view(stack@)) {
                        deepest as int
                    } else {
                        stack_depth(depth_stack_view(stack@))
                    },
                ) == saturated(spec_depth(self@) as int),
            decreases stack_size(depth_stack_view(stack@)),
        {
            let ghost before = depth_stack_view(stack@);
            let (node, enclosing) = stack.pop().unwrap();
            proof {
                assert(depth_stack_view(stack@) =~= before.drop_last());
                lemma_stack_depth_nonnegative(depth_stack_view(stack@));
            }
            match node {
                Sexp::Atom(_) => {},
                Sexp::List(items) => {
                    let depth = enclosing.saturating_add(1);
                    if depth > deepest {
                        deepest = depth;
                    }
                    let ghost base = depth_stack_view(stack@);
                    let ghost item_views = views(items@);
                    proof {
                        lemma_list_view(*items);
                    }
                    let mut index: usize = 0;
                    while index < items.len()
                        invariant
                            index <= items.len(),
                            item_views == views(items@),
                            stack_depth(depth_stack_view(stack@)) == {
                                let a = stack_depth(base);
                                let b = items_depth(item_views.take(index as int), depth as int);
                                if a >= b { a } else { b }
                            },
                            stack_size(depth_stack_view(stack@)) == stack_size(base)
                                + spec_size_of_items(item_views.take(index as int)),
                        decreases items.len() - index,
                    {
                        let ghost prior = depth_stack_view(stack@);
                        stack.push((&items[index], depth));
                        proof {
                            let now = depth_stack_view(stack@);
                            assert(now.drop_last() =~= prior);
                            assert(item_views.take(index + 1).drop_last() =~= item_views.take(
                                index as int,
                            ));
                        }
                        index = index + 1;
                    }
                    proof {
                        assert(item_views.take(items.len() as int) =~= item_views);
                        lemma_items_depth(item_views, depth as int);
                    }
                },
            }
        }
        proof {
            assert(depth_stack_view(stack@) =~= Seq::<(SexpV, int)>::empty());
        }
        deepest
    }
}

/// What a traversal stack has still to yield, top first: the prefix order of
/// each node waiting on it.
pub open spec fn remaining_preorder(stack: Seq<SexpV>) -> Seq<SexpV>
    decreases stack.len(),
{
    if stack.len() == 0 {
        Seq::empty()
    } else {
        spec_preorder(stack.last()) + remaining_preorder(stack.drop_last())
    }
}

/// The prefix orders of a first element and the rest, one after the other.
pub proof fn lemma_preorder_of_items_front(first: SexpV, rest: Seq<SexpV>)
    ensures
        spec_preorder_of_items(seq![first] + rest) == spec_preorder(first)
            + spec_preorder_of_items(rest),
    decreases rest.len(),
{
    if rest.len() == 0 {
        assert(seq![first] + rest =~= seq![first]);
        assert(seq![first].drop_last() =~= Seq::<SexpV>::empty());
        assert(spec_preorder_of_items(Seq::<SexpV>::empty()) == Seq::<SexpV>::empty());
        assert(spec_preorder(first) + spec_preorder_of_items(rest) =~= spec_preorder(first));
        assert(spec_preorder_of_items(seq![first]) =~= spec_preorder(first));
    } else {
        lemma_preorder_of_items_front(first, rest.drop_last());
        assert((seq![first] + rest).drop_last() =~= seq![first] + rest.drop_last());
        assert((seq![first] + rest).last() == rest.last());
        assert(spec_preorder_of_items(seq![first] + rest) =~= spec_preorder(first)
            + spec_preorder_of_items(rest));
    }
}

/// Iterator over an S-expression and everything within it, in depth-first
/// prefix order.
///
/// Returned by [`Sexp::preorder`]. Once it has yielded `None` it goes on
/// yielding `None`.
#[derive(Clone, Debug)]
pub struct Preorder<'a> {
    stack: Vec<&'a Sexp>,
}

impl<'a> View for Preorder<'a> {
    type V = Seq<SexpV>;

    /// What the iterator has still to yield, in order.
    closed spec fn view(&self) -> Seq<SexpV> {
        remaining_preorder(Seq::new(self.stack@.len(), |i: int| self.stack@[i]@))
    }
}

impl Sexp {
    /// Returns an iterator over this S-expression and every S-expression
    /// within it, in depth-first prefix order.
    ///
    /// The first item is always the S-expression itself, so an atom yields one
    /// item, and a list yields itself before its elements and each element
    /// before that element's own. This is the order in which the parts appear
    /// in every representation of §6.
    pub fn preorder(&self) -> (r: Preorder<'_>)
        ensures
            r@ == spec_preorder(self@),
    {
        let mut stack: Vec<&Sexp> = Vec::new();
        stack.push(self);
        let r = Preorder { stack };
        proof {
            let sv = Seq::new(r.stack@.len(), |i: int| r.stack@[i]@);
            assert(sv.drop_last() =~= Seq::<SexpV>::empty());
            assert(remaining_preorder(sv.drop_last()) == Seq::<SexpV>::empty());
            assert(r@ =~= spec_preorder(self@));
        }
        r
    }
}

impl<'a> Preorder<'a> {
    /// Returns the next S-expression in prefix order, or `None` once every
    /// one has been yielded.
    ///
    /// The traversal is iterative, so it does not consume stack in proportion
    /// to the depth it visits.
    pub fn next(&mut self) -> (r: Option<&'a Sexp>)
        ensures
            match r {
                None => old(self)@.len() == 0 && final(self)@.len() == 0,
                Some(node) => old(self)@ == seq![node@] + final(self)@,
            },
    {
        let ghost before = Seq::new(self.stack@.len(), |i: int| self.stack@[i]@);
        match self.stack.pop() {
            None => {
                proof {
                    assert(before.len() == 0);
                }
                None
            },
            Some(node) => {
                let ghost base = Seq::new(self.stack@.len(), |i: int| self.stack@[i]@);
                proof {
                    assert(base =~= before.drop_last());
                }
                match node {
                    Sexp::Atom(_) => {},
                    Sexp::List(items) => {
                        let ghost item_views = views(items@);
                        proof {
                            lemma_list_view(*items);
                        }
                        let mut index: usize = items.len();
                        while index > 0
                            invariant
                                index <= items.len(),
                                item_views == views(items@),
                                remaining_preorder(
                                    Seq::new(self.stack@.len(), |i: int| self.stack@[i]@),
                                ) == spec_preorder_of_items(
                                    item_views.subrange(index as int, items.len() as int),
                                ) + remaining_preorder(base),
                            decreases index,
                        {
                            let ghost prior = Seq::new(self.stack@.len(), |i: int| self.stack@[i]@);
                            index = index - 1;
                            self.stack.push(&items[index]);
                            proof {
                                let now = Seq::new(self.stack@.len(), |i: int| self.stack@[i]@);
                                assert(now.drop_last() =~= prior);
                                assert(now.last() == item_views[index as int]);
                                let tail = item_views.subrange(index + 1, items.len() as int);
                                assert(item_views.subrange(index as int, items.len() as int)
                                    =~= seq![item_views[index as int]] + tail);
                                lemma_preorder_of_items_front(item_views[index as int], tail);
                                assert(remaining_preorder(now) =~= spec_preorder_of_items(
                                    item_views.subrange(index as int, items.len() as int),
                                ) + remaining_preorder(base));
                            }
                        }
                        proof {
                            assert(item_views.subrange(0, items.len() as int) =~= item_views);
                        }
                    },
                }
                proof {
                    let now = Seq::new(self.stack@.len(), |i: int| self.stack@[i]@);
                    assert(before.last() == node@);
                    if node@ is Atom {
                        assert(now =~= base);
                    }
                    assert(remaining_preorder(before) =~= seq![node@] + remaining_preorder(now));
                }
                Some(node)
            },
        }
    }
}

impl Sexp {
    /// Returns the list's elements for modification, or `None` if this is an
    /// atom.
    ///
    /// An [`Atom`] is immutable, so a tree changes by replacing the elements
    /// of the lists that hold them.
    pub fn as_list_mut(&mut self) -> (r: Option<&mut Vec<Sexp>>)
        ensures
            match r {
                None => old(self)@ is Atom && final(self)@ == old(self)@,
                Some(items) => {
                    &&& *old(self) == Sexp::List(*items)
                    &&& *final(self) == Sexp::List(*final(items))
                },
            },
    {
        match self {
            Sexp::Atom(_) => None,
            Sexp::List(items) => Some(items),
        }
    }
}

impl From<Atom> for Sexp {
    fn from(atom: Atom) -> (r: Self)
        ensures
            r@ == SexpV::Atom(atom@),
    {
        Sexp::Atom(atom)
    }
}

impl vstd::std_specs::convert::FromSpecImpl<Atom> for Sexp {
    open spec fn obeys_from_spec() -> bool {
        true
    }

    open spec fn from_spec(atom: Atom) -> Self {
        Sexp::Atom(atom)
    }
}

impl From<Vec<Sexp>> for Sexp {
    fn from(items: Vec<Sexp>) -> (r: Self)
        ensures
            r@ == SexpV::List(views(items@)),
    {
        proof {
            lemma_list_view(items);
        }
        Sexp::List(items)
    }
}

impl vstd::std_specs::convert::FromSpecImpl<Vec<Sexp>> for Sexp {
    open spec fn obeys_from_spec() -> bool {
        true
    }

    open spec fn from_spec(items: Vec<Sexp>) -> Self {
        Sexp::List(items)
    }
}

impl From<Vec<u8>> for Sexp {
    fn from(octets: Vec<u8>) -> (r: Self)
        ensures
            r@ == SexpV::Atom(AtomV { data: octets@, hint: None }),
    {
        Sexp::Atom(Atom::from(octets))
    }
}

/// The conversion is stated on the view, by the `ensures` of `from`.
impl vstd::std_specs::convert::FromSpecImpl<Vec<u8>> for Sexp {
    open spec fn obeys_from_spec() -> bool {
        false
    }

    open spec fn from_spec(octets: Vec<u8>) -> Self {
        arbitrary()
    }
}

impl From<Box<[u8]>> for Sexp {
    fn from(octets: Box<[u8]>) -> (r: Self)
        ensures
            r@ == SexpV::Atom(AtomV { data: octets@, hint: None }),
    {
        Sexp::Atom(Atom::from(octets))
    }
}

/// The conversion is stated on the view, by the `ensures` of `from`.
impl vstd::std_specs::convert::FromSpecImpl<Box<[u8]>> for Sexp {
    open spec fn obeys_from_spec() -> bool {
        false
    }

    open spec fn from_spec(octets: Box<[u8]>) -> Self {
        arbitrary()
    }
}

impl<'a> From<&'a [u8]> for Sexp {
    fn from(octets: &'a [u8]) -> (r: Self)
        ensures
            r@ == SexpV::Atom(AtomV { data: octets@, hint: None }),
    {
        Sexp::atom(octets)
    }
}

/// The conversion is stated on the view, by the `ensures` of `from`.
impl<'a> vstd::std_specs::convert::FromSpecImpl<&'a [u8]> for Sexp {
    open spec fn obeys_from_spec() -> bool {
        false
    }

    open spec fn from_spec(octets: &'a [u8]) -> Self {
        arbitrary()
    }
}

impl<'a> From<&'a str> for Sexp {
    fn from(text: &'a str) -> (r: Self)
        ensures
            r@ == SexpV::Atom(AtomV { data: text.spec_bytes(), hint: None }),
    {
        Sexp::Atom(Atom::from(text))
    }
}

/// The conversion is stated on the view, by the `ensures` of `from`.
impl<'a> vstd::std_specs::convert::FromSpecImpl<&'a str> for Sexp {
    open spec fn obeys_from_spec() -> bool {
        false
    }

    open spec fn from_spec(text: &'a str) -> Self {
        arbitrary()
    }
}

impl From<String> for Sexp {
    /// Takes the text's octets, as the text is written in UTF-8.
    fn from(text: String) -> (r: Self)
        ensures
            exists|written: &str|
                written@ == text@ && r@ == SexpV::Atom(
                    AtomV { data: written.spec_bytes(), hint: None },
                ),
    {
        let written = text.as_str();
        let r = Sexp::from(written);
        assert(written@ == text@ && r@ == SexpV::Atom(
            AtomV { data: written.spec_bytes(), hint: None },
        ));
        r
    }
}

/// The conversion is stated on the view, by the `ensures` of `from`.
impl vstd::std_specs::convert::FromSpecImpl<String> for Sexp {
    open spec fn obeys_from_spec() -> bool {
        false
    }

    open spec fn from_spec(text: String) -> Self {
        arbitrary()
    }
}

/// Returns a vector holding the array's S-expressions, in order.
///
/// Calls `Vec::from` on the array, which std documents as allocating a vector
/// and moving the array's items into it. The contract claims that the vector
/// holds the array's S-expressions in their order.
#[verifier::external_body]
fn vec_of_array<const N: usize>(items: [Sexp; N]) -> (r: Vec<Sexp>)
    ensures
        r@ == items@,
{
    Vec::from(items)
}

impl<const N: usize> From<[Sexp; N]> for Sexp {
    fn from(items: [Sexp; N]) -> (r: Self)
        ensures
            r@ == SexpV::List(views(items@)),
    {
        let vector = vec_of_array(items);
        Sexp::list(vector)
    }
}

/// The conversion is stated on the view, by the `ensures` of `from`.
impl<const N: usize> vstd::std_specs::convert::FromSpecImpl<[Sexp; N]> for Sexp {
    open spec fn obeys_from_spec() -> bool {
        false
    }

    open spec fn from_spec(items: [Sexp; N]) -> Self {
        arbitrary()
    }
}

} // verus!
