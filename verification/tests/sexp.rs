use std::collections::hash_map::DefaultHasher;
use std::hash::{Hash, Hasher};

use csexpr::types::{Atom, Preorder, Sexp};

const DATA: &[u8] = b"data";
const HINT: &[u8] = b"hint";
const OCTETS: &[u8] = &[0x00, 0xff, 0x1b, 0x7f];

/// A nesting deeper than any stack the tests may assume.
const DEEP: usize = 100_000;

fn hash_of(sexp: &Sexp) -> u64 {
    let mut hasher = DefaultHasher::new();
    sexp.hash(&mut hasher);
    hasher.finish()
}

/// Builds `depth` nested lists around one atom, without recursing.
fn nested(depth: usize) -> Sexp {
    let mut sexp = Sexp::atom(DATA);

    for _ in 0..depth {
        sexp = Sexp::list(vec![sexp]);
    }

    sexp
}

/// Drops an S-expression without recursing, by lifting every list's
/// elements out before the list that held them is dropped.
fn dismantle(sexp: Sexp) {
    let mut stack = vec![sexp];

    while let Some(node) = stack.pop() {
        if let Some(items) = node.into_list() {
            stack.extend(items);
        }
    }
}

/// Everything a traversal yields, in the order it yields it.
fn visited<'a>(mut traversal: Preorder<'a>) -> Vec<&'a Sexp> {
    let mut seen = Vec::new();

    while let Some(node) = traversal.next() {
        seen.push(node);
    }

    seen
}

// atom, list

#[test]
fn atom_holds_the_data_octets() {
    let sexp = Sexp::atom(DATA);

    assert_eq!(sexp.as_atom(), Some(&Atom::new(DATA)));
    assert_eq!(sexp.as_atom().map(Atom::data), Some(DATA));
}

#[test]
fn atom_stores_no_hint() {
    assert_eq!(Sexp::atom(DATA).as_atom().and_then(Atom::hint), None);
}

#[test]
fn atom_accepts_zero_length_data() {
    assert_eq!(Sexp::atom(b""), Sexp::Atom(Atom::new(b"")));
}

#[test]
fn atom_accepts_arbitrary_octets() {
    assert_eq!(Sexp::atom(OCTETS).as_atom().map(Atom::data), Some(OCTETS));
}

#[test]
fn list_holds_its_elements_in_order() {
    let sexp = Sexp::list(vec![Sexp::atom(b"a"), Sexp::atom(b"b")]);
    let expected = [Sexp::atom(b"a"), Sexp::atom(b"b")];

    assert_eq!(sexp.as_list(), Some(&expected[..]));
}

#[test]
fn list_accepts_no_elements() {
    assert_eq!(Sexp::list(vec![]).as_list(), Some(&[][..]));
}

#[test]
fn list_accepts_lists_as_elements() {
    let sexp = Sexp::list(vec![Sexp::list(vec![Sexp::atom(DATA)])]);

    assert_eq!(sexp.get(0), Some(&Sexp::list(vec![Sexp::atom(DATA)])));
}

// is_atom, is_list

#[test]
fn is_atom_and_is_list_distinguish_the_two_cases() {
    let atom = Sexp::atom(DATA);
    let list = Sexp::list(vec![]);

    assert!(atom.is_atom() && !atom.is_list());
    assert!(list.is_list() && !list.is_atom());
}

// as_atom, as_list, as_list_mut

#[test]
fn as_atom_returns_none_for_a_list() {
    assert_eq!(Sexp::list(vec![Sexp::atom(DATA)]).as_atom(), None);
}

#[test]
fn as_list_returns_none_for_an_atom() {
    assert_eq!(Sexp::atom(DATA).as_list(), None);
}

#[test]
fn as_list_distinguishes_the_empty_list_from_an_empty_atom() {
    assert_eq!(Sexp::list(vec![]).as_list(), Some(&[][..]));
    assert_eq!(Sexp::atom(b"").as_list(), None);
    assert_ne!(Sexp::list(vec![]), Sexp::atom(b""));
}

#[test]
fn as_list_mut_replaces_elements() {
    let mut sexp = Sexp::list(vec![Sexp::atom(b"a")]);

    sexp.as_list_mut().unwrap()[0] = Sexp::atom(b"b");

    assert_eq!(sexp, Sexp::list(vec![Sexp::atom(b"b")]));
}

#[test]
fn as_list_mut_returns_none_for_an_atom() {
    assert!(Sexp::atom(DATA).as_list_mut().is_none());
}

// into_atom, into_list

#[test]
fn into_atom_returns_the_atom() {
    let atom = Atom::new(DATA).with_hint(HINT);

    assert_eq!(Sexp::Atom(atom.clone()).into_atom(), Some(atom));
}

#[test]
fn into_atom_returns_none_for_a_list() {
    assert_eq!(Sexp::list(vec![]).into_atom(), None);
}

#[test]
fn into_list_returns_the_elements() {
    let sexp = Sexp::list(vec![Sexp::atom(b"a"), Sexp::atom(b"b")]);

    assert_eq!(
        sexp.into_list(),
        Some(vec![Sexp::atom(b"a"), Sexp::atom(b"b")])
    );
}

#[test]
fn into_list_returns_none_for_an_atom() {
    assert_eq!(Sexp::atom(DATA).into_list(), None);
}

// get

#[test]
fn get_returns_the_element_at_the_index() {
    let sexp = Sexp::list(vec![Sexp::atom(b"a"), Sexp::atom(b"b")]);

    assert_eq!(sexp.get(0), Some(&Sexp::atom(b"a")));
    assert_eq!(sexp.get(1), Some(&Sexp::atom(b"b")));
}

#[test]
fn get_returns_none_past_the_end() {
    assert_eq!(Sexp::list(vec![Sexp::atom(b"a")]).get(1), None);
    assert_eq!(Sexp::list(vec![]).get(0), None);
}

#[test]
fn get_returns_none_for_an_atom_at_every_index() {
    let atom = Sexp::atom(DATA);

    assert_eq!(atom.get(0), None);
    assert_eq!(atom.get(usize::MAX), None);
}

// depth

#[test]
fn depth_of_an_atom_is_zero() {
    assert_eq!(Sexp::atom(DATA).depth(), 0);
}

#[test]
fn depth_counts_the_outermost_list_as_one() {
    assert_eq!(Sexp::list(vec![]).depth(), 1);
    assert_eq!(Sexp::list(vec![Sexp::atom(b"a"), Sexp::atom(b"b")]).depth(), 1);
}

#[test]
fn depth_counts_nesting() {
    assert_eq!(nested(2).depth(), 2);
    assert_eq!(nested(37).depth(), 37);
}

#[test]
fn depth_reports_the_deepest_branch() {
    let sexp = Sexp::list(vec![Sexp::atom(b"a"), nested(4)]);

    assert_eq!(sexp.depth(), 5);
}

#[test]
fn depth_does_not_recurse() {
    let deep = nested(DEEP);

    assert_eq!(deep.depth(), DEEP);

    dismantle(deep);
}

// preorder

#[test]
fn preorder_yields_an_atom_alone() {
    let atom = Sexp::atom(DATA);

    assert_eq!(visited(atom.preorder()), vec![&atom]);
}

#[test]
fn preorder_yields_a_list_before_its_elements() {
    let sexp = Sexp::list(vec![Sexp::atom(b"a"), Sexp::list(vec![Sexp::atom(b"b")])]);
    let seen = visited(sexp.preorder());

    assert_eq!(seen.len(), 4);
    assert_eq!(seen[0], &sexp);
    assert_eq!(seen[1], &Sexp::atom(b"a"));
    assert_eq!(seen[2], &Sexp::list(vec![Sexp::atom(b"b")]));
    assert_eq!(seen[3], &Sexp::atom(b"b"));
}

#[test]
fn preorder_yields_the_empty_list_alone() {
    assert_eq!(visited(Sexp::list(vec![]).preorder()).len(), 1);
}

#[test]
fn preorder_is_fused() {
    let sexp = Sexp::atom(DATA);
    let mut traversal = sexp.preorder();

    assert!(traversal.next().is_some());
    assert!(traversal.next().is_none());
    assert!(traversal.next().is_none());
}

#[test]
fn preorder_does_not_recurse() {
    let deep = nested(DEEP);

    assert_eq!(visited(deep.preorder()).len(), DEEP + 1);

    dismantle(deep);
}

// Clone, PartialEq, Eq, Hash

#[test]
fn eq_holds_for_equal_trees() {
    assert_eq!(Sexp::atom(DATA), Sexp::atom(DATA));
    assert_eq!(
        Sexp::list(vec![Sexp::atom(DATA)]),
        Sexp::list(vec![Sexp::atom(DATA)])
    );
}

#[test]
fn eq_fails_across_the_two_cases() {
    assert_ne!(Sexp::atom(DATA), Sexp::list(vec![Sexp::atom(DATA)]));
}

#[test]
fn eq_respects_element_order() {
    assert_ne!(
        Sexp::list(vec![Sexp::atom(b"a"), Sexp::atom(b"b")]),
        Sexp::list(vec![Sexp::atom(b"b"), Sexp::atom(b"a")])
    );
}

#[test]
fn eq_respects_display_hints() {
    let hinted = Sexp::from(Atom::new(DATA).with_hint(HINT));

    assert_ne!(hinted, Sexp::atom(DATA));
}

#[test]
fn eq_distinguishes_nesting() {
    assert_ne!(nested(1), nested(2));
}

#[test]
fn sexp_hash_agrees_with_eq() {
    for sexp in [Sexp::atom(DATA), Sexp::list(vec![]), nested(3)] {
        assert_eq!(hash_of(&sexp), hash_of(&sexp.clone()));
    }
}

#[test]
fn sexp_clone_equals_the_original() {
    for sexp in [
        Sexp::atom(OCTETS),
        Sexp::from(Atom::new(DATA).with_hint(OCTETS)),
        Sexp::list(vec![]),
        nested(5),
    ] {
        assert_eq!(sexp.clone(), sexp);
    }
}

// debug_string

#[test]
fn debug_renders_an_atom_as_the_atom_does() {
    assert_eq!(Sexp::atom(DATA).debug_string(), "4:data");
}

#[test]
fn debug_renders_a_list_in_parentheses() {
    let sexp = Sexp::list(vec![Sexp::atom(b"a"), Sexp::atom(b"bc")]);

    assert_eq!(sexp.debug_string(), "(1:a2:bc)");
}

#[test]
fn debug_renders_the_empty_list() {
    assert_eq!(Sexp::list(vec![]).debug_string(), "()");
}

#[test]
fn debug_renders_nesting_and_hints() {
    let sexp = Sexp::list(vec![
        Sexp::from(Atom::new(DATA).with_hint(HINT)),
        Sexp::list(vec![Sexp::list(vec![])]),
    ]);

    assert_eq!(sexp.debug_string(), "([4:hint]4:data(()))");
}

#[test]
fn sexp_debug_escapes_non_printable_octets() {
    let sexp = Sexp::list(vec![Sexp::atom(&[0xff, b'\n'])]);

    assert_eq!(sexp.debug_string(), r"(2:\xff\n)");
}

#[test]
fn debug_does_not_recurse() {
    let deep = nested(DEEP);

    assert_eq!(deep.debug_string().len(), DEEP + "4:data".len() + DEEP);

    dismantle(deep);
}

// From, extend

#[test]
fn from_octet_string_conversions_agree() {
    let expected = Sexp::atom(DATA);

    assert_eq!(Sexp::from("data"), expected);
    assert_eq!(Sexp::from(DATA), expected);
    assert_eq!(Sexp::from(String::from("data")), expected);
    assert_eq!(Sexp::from(DATA.to_vec()), expected);
    assert_eq!(Sexp::from(Box::from(DATA)), expected);
    assert_eq!(Sexp::from(Atom::new(DATA)), expected);
}

#[test]
fn from_atom_keeps_the_display_hint() {
    let atom = Atom::new(DATA).with_hint(HINT);

    assert_eq!(Sexp::from(atom.clone()).into_atom(), Some(atom));
}

#[test]
fn from_list_conversions_agree() {
    let expected = Sexp::list(vec![Sexp::atom(b"a")]);

    assert_eq!(Sexp::from(vec![Sexp::atom(b"a")]), expected);
    assert_eq!(Sexp::from([Sexp::atom(b"a")]), expected);
}

#[test]
fn from_an_empty_array_builds_the_empty_list() {
    assert_eq!(Sexp::from([]), Sexp::list(vec![]));
}

#[test]
fn from_an_empty_vector_builds_the_empty_list() {
    assert_eq!(Sexp::from(Vec::<Sexp>::new()), Sexp::list(vec![]));
}

#[test]
fn list_collects_converted_items() {
    let sexp = Sexp::list(["a", "b"].into_iter().map(Sexp::from).collect());

    assert_eq!(sexp, Sexp::list(vec![Sexp::atom(b"a"), Sexp::atom(b"b")]));
}

#[test]
fn extend_appends_to_a_list() {
    let mut sexp = Sexp::list(vec![Sexp::atom(b"a")]);

    sexp.extend(vec![Sexp::atom(b"b")]);

    assert_eq!(sexp, Sexp::list(vec![Sexp::atom(b"a"), Sexp::atom(b"b")]));
}

#[test]
fn extend_replaces_an_atom_with_a_list() {
    let mut sexp = Sexp::atom(DATA);

    sexp.extend(vec![Sexp::atom(b"b")]);

    assert_eq!(sexp, Sexp::list(vec![Sexp::atom(b"b")]));
}

// Lists built item by item, as a list of conversions

#[test]
fn macro_builds_a_list_of_atoms() {
    assert_eq!(
        Sexp::list(vec![Sexp::from("a"), Sexp::from("b")]),
        Sexp::list(vec![Sexp::atom(b"a"), Sexp::atom(b"b")])
    );
}

#[test]
fn macro_builds_the_empty_list() {
    assert_eq!(Sexp::list(Vec::new()), Sexp::list(vec![]));
}

#[test]
fn macro_nests() {
    assert_eq!(
        Sexp::list(vec![Sexp::from("a"), Sexp::from(vec![Sexp::from("b")])]),
        Sexp::list(vec![Sexp::atom(b"a"), Sexp::list(vec![Sexp::atom(b"b")])])
    );
}

#[test]
fn macro_accepts_a_hinted_atom() {
    let atom = Atom::new(DATA).with_hint(HINT);

    assert_eq!(
        Sexp::list(vec![Sexp::from(atom.clone())]),
        Sexp::list(vec![Sexp::from(atom)])
    );
}

#[test]
fn macro_accepts_a_trailing_comma() {
    assert_eq!(
        Sexp::list(vec![Sexp::from("a"),]),
        Sexp::list(vec![Sexp::from("a")])
    );
}
