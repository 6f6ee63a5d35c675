//! S-expression atoms.
//!
//! An S-expression is either an octet string or a list of simpler S-expressions
//! (RFC 9804, §2).
//!
//! This module provides the octet string as a value: data octets carrying an
//! optional display hint, which describes how the data should be displayed to a
//! user and has no other function (§4.6). If the data is text, §4.6 recommends
//! UTF-8, but interpreting the octets is for the application, so this type
//! neither validates nor converts them.
//!
//! An atom is representation-independent. §6 gives an S-expression three
//! representations: canonical, basic transport, and advanced. Choosing among
//! them belongs to the encoder.

use vstd::prelude::*;
use vstd::string::StringSliceAdditionalSpecFns;

verus! {

/// Display hint for an application that specifies no other default:
/// `application/octet-stream`, as RFC 9804 §4.6 specifies.
///
/// Pass it to [`Atom::effective_hint`] when the application defines no
/// default of its own. §10 notes that an atom carrying no display hint may be
/// read by another application under a different default, so an effective hint
/// is a property of the reader rather than of the atom.
pub const DEFAULT_HINT: [u8; 24] = [
    0x61, 0x70, 0x70, 0x6c, 0x69, 0x63, 0x61, 0x74, 0x69, 0x6f, 0x6e, 0x2f,
    0x6f, 0x63, 0x74, 0x65, 0x74, 0x2d, 0x73, 0x74, 0x72, 0x65, 0x61, 0x6d,
];

/// The value an atom stands for: its data octets and, where it carries one,
/// its display hint.
pub ghost struct AtomV {
    pub data: Seq<u8>,
    pub hint: Option<Seq<u8>>,
}

/// The view of an optional octet buffer.
pub open spec fn option_view(hint: Option<Vec<u8>>) -> Option<Seq<u8>> {
    match hint {
        Some(h) => Some(h@),
        None => None,
    }
}

/// An S-expression octet string with an optional display hint.
///
/// Two atoms are equal when both their data octets and their display hints are
/// equal, the criterion RFC 9804 §4.7 recommends. The comparison between two
/// octets is exact, so atoms are case-sensitive.
///
/// An atom is immutable. Changing one means constructing a replacement.
#[derive(PartialEq, Eq, Hash, Debug)]
pub struct Atom {
    data: Vec<u8>,
    hint: Option<Vec<u8>>,
}

impl View for Atom {
    type V = AtomV;

    closed spec fn view(&self) -> AtomV {
        AtomV { data: self.data@, hint: option_view(self.hint) }
    }
}

/// The view of an optional boxed run of octets.
pub open spec fn boxed_option_view(hint: Option<Box<[u8]>>) -> Option<Seq<u8>> {
    match hint {
        Some(h) => Some(h@),
        None => None,
    }
}

/// Returns the octets of `octets` as a boxed slice of their own.
///
/// Calls `Vec::into_boxed_slice`, which std documents as converting the vector
/// into a boxed slice of its elements. The contract claims that the boxed
/// slice holds the vector's octets, in order.
#[verifier::external_body]
fn boxed(octets: Vec<u8>) -> (r: Box<[u8]>)
    ensures
        r@ == octets@,
{
    octets.into_boxed_slice()
}

/// The hint an atom is taken to carry where `default` stands in for an absent
/// one.
pub open spec fn spec_effective_hint(atom: AtomV, default: Seq<u8>) -> Seq<u8> {
    match atom.hint {
        Some(h) => h,
        None => default,
    }
}

/// Two atoms with the same data octets, whatever their display hints.
pub open spec fn spec_eq_ignoring_hint(left: AtomV, right: AtomV) -> bool {
    left.data == right.data
}

/// The parts an atom is taken apart into.
pub open spec fn spec_into_parts(atom: AtomV) -> (Seq<u8>, Option<Seq<u8>>) {
    (atom.data, atom.hint)
}

/// The atom built from its parts.
pub open spec fn spec_from_parts(data: Seq<u8>, hint: Option<Seq<u8>>) -> AtomV {
    AtomV { data, hint }
}

/// Copies a slice of octets into a buffer of its own.
pub fn copy_octets(octets: &[u8]) -> (r: Vec<u8>)
    ensures
        r@ == octets@,
{
    let mut out: Vec<u8> = Vec::with_capacity(octets.len());
    let mut index: usize = 0;
    while index < octets.len()
        invariant
            index <= octets.len(),
            out@ == octets@.take(index as int),
        decreases octets.len() - index,
    {
        out.push(octets[index]);
        index = index + 1;
        assert(out@ =~= octets@.take(index as int));
    }
    assert(octets@.take(octets.len() as int) =~= octets@);
    out
}

impl Atom {
    /// Creates an atom without a display hint.
    ///
    /// RFC 9804 §2 admits an octet string of length zero, and §4.6 allows it to
    /// hold any data representable as octets.
    pub fn new(data: &[u8]) -> (r: Self)
        ensures
            r@ == (AtomV { data: data@, hint: None }),
    {
        Atom { data: copy_octets(data), hint: None }
    }

    /// Returns the atom with the given display hint, replacing any it carries.
    ///
    /// RFC 9804 §4.6 precedes an octet string with a single display hint, so an
    /// atom holds at most one. The hint is itself an octet string, and may be
    /// zero length or hold arbitrary octets.
    pub fn with_hint(self, hint: &[u8]) -> (r: Self)
        ensures
            r@ == (AtomV { data: self@.data, hint: Some(hint@) }),
    {
        Atom { data: self.data, hint: Some(copy_octets(hint)) }
    }

    /// Returns the data octets.
    pub fn data(&self) -> (r: &[u8])
        ensures
            r@ == self@.data,
    {
        self.data.as_slice()
    }

    /// Returns the display hint, if present.
    pub fn hint(&self) -> (r: Option<&[u8]>)
        ensures
            r matches Some(h) ==> self@.hint == Some(h@),
            r is None ==> self@.hint is None,
    {
        match &self.hint {
            Some(h) => Some(h.as_slice()),
            None => None,
        }
    }

    /// Returns the atom's display hint, or `default` if it carries none.
    ///
    /// RFC 9804 §4.7 allows comparing an atom without a display hint as though
    /// it had the default hint for the application.
    pub fn effective_hint<'a>(&'a self, default: &'a [u8]) -> (r: &'a [u8])
        ensures
            r@ == spec_effective_hint(self@, default@),
    {
        match &self.hint {
            Some(h) => h.as_slice(),
            None => default,
        }
    }

    /// Returns `true` if two atoms hold the same data octets, whatever their
    /// display hints.
    ///
    /// RFC 9804 §4.7 names ignoring the display hint as a criterion an
    /// application may use in place of the recommended one.
    pub fn eq_ignoring_hint(&self, other: &Self) -> (r: bool)
        ensures
            r == spec_eq_ignoring_hint(self@, other@),
            r == (self@.data == other@.data),
    {
        octets_equal(self.data.as_slice(), other.data.as_slice())
    }

    /// Returns the number of data octets, not counting the display hint.
    pub fn len(&self) -> (r: usize)
        ensures
            r == self@.data.len(),
    {
        self.data.len()
    }

    /// Returns `true` if there are no data octets.
    ///
    /// A display hint does not make an atom non-empty.
    pub fn is_empty(&self) -> (r: bool)
        ensures
            r == (self@.data.len() == 0),
    {
        self.data.len() == 0
    }

    /// Consumes the atom and returns its data octets.
    pub fn into_data(self) -> (r: Box<[u8]>)
        ensures
            r@ == self@.data,
    {
        boxed(self.data)
    }

    /// Consumes the atom and returns its data octets and display hint.
    pub fn into_parts(self) -> (r: (Box<[u8]>, Option<Box<[u8]>>))
        ensures
            (r.0@, boxed_option_view(r.1)) == spec_into_parts(self@),
    {
        let hint = match self.hint {
            Some(h) => Some(boxed(h)),
            None => None,
        };
        (boxed(self.data), hint)
    }

    /// Creates an atom from octets the caller already owns.
    ///
    /// This is what [`Atom::into_parts`] undoes. [`Atom::new`] and
    /// [`Atom::with_hint`] are lent their octets and copy them; this takes
    /// octets that are already the caller's to give.
    pub fn from_parts(data: Box<[u8]>, hint: Option<Box<[u8]>>) -> (r: Self)
        ensures
            r@ == spec_from_parts(data@, boxed_option_view(hint)),
    {
        let hint = match hint {
            Some(h) => Some(h.into_vec()),
            None => None,
        };
        Atom { data: data.into_vec(), hint }
    }
}

/// An atom's data and display hint are each no longer than a `usize` counts.
pub proof fn lemma_atom_fits(atom: &Atom)
    ensures
        atom@.data.len() <= usize::MAX,
        atom@.hint matches Some(h) ==> h.len() <= usize::MAX,
{
    assert(atom.data.len() == atom.data@.len());
    if let Some(h) = &atom.hint {
        assert(h.len() == h@.len());
    }
}

/// Two atoms are equal ignoring their display hints exactly when their data
/// holds the same number of octets and every octet, the last included, equals
/// the octet at the same place in the other; and giving either atom any hint,
/// or none, leaves the comparison as it was.
pub proof fn lemma_eq_ignoring_hint(
    left: AtomV,
    right: AtomV,
    left_hint: Option<Seq<u8>>,
    right_hint: Option<Seq<u8>>,
)
    ensures
        spec_eq_ignoring_hint(left, right) <==> (left.data.len() == right.data.len() && forall|
            i: int,
        |
            0 <= i < left.data.len() ==> left.data[i] == right.data[i]),
        spec_eq_ignoring_hint(
            AtomV { data: left.data, hint: left_hint },
            AtomV { data: right.data, hint: right_hint },
        ) == spec_eq_ignoring_hint(left, right),
{
    if left.data.len() == right.data.len() && forall|i: int|
        0 <= i < left.data.len() ==> left.data[i] == right.data[i] {
        assert(left.data =~= right.data);
    }
}

/// Taking an atom apart and building it from the parts gives back the atom,
/// and building an atom from parts and taking it apart gives back the parts.
pub proof fn lemma_parts_round_trip(atom: AtomV, data: Seq<u8>, hint: Option<Seq<u8>>)
    ensures
        spec_from_parts(spec_into_parts(atom).0, spec_into_parts(atom).1) == atom,
        spec_into_parts(spec_from_parts(data, hint)) == (data, hint),
{
}

/// Returns `true` if the two octet strings are equal.
pub fn octets_equal(left: &[u8], right: &[u8]) -> (r: bool)
    ensures
        r == (left@ == right@),
{
    if left.len() != right.len() {
        return false;
    }
    let mut index: usize = 0;
    while index < left.len()
        invariant
            left.len() == right.len(),
            index <= left.len(),
            left@.take(index as int) == right@.take(index as int),
        decreases left.len() - index,
    {
        if left[index] != right[index] {
            assert(left@[index as int] != right@[index as int]);
            return false;
        }
        assert(left@.take(index + 1) =~= left@.take(index as int).push(left@[index as int]));
        assert(right@.take(index + 1) =~= right@.take(index as int).push(right@[index as int]));
        index = index + 1;
    }
    assert(left@.take(left.len() as int) =~= left@);
    assert(right@.take(right.len() as int) =~= right@);
    true
}

impl Clone for Atom {
    fn clone(&self) -> (r: Self)
        ensures
            r@ == self@,
    {
        let hint = match &self.hint {
            Some(h) => Some(copy_octets(h.as_slice())),
            None => None,
        };
        Atom { data: copy_octets(self.data.as_slice()), hint }
    }
}

impl From<Vec<u8>> for Atom {
    fn from(octets: Vec<u8>) -> (r: Self)
        ensures
            r@ == (AtomV { data: octets@, hint: None }),
    {
        Atom { data: octets, hint: None }
    }
}

impl vstd::std_specs::convert::FromSpecImpl<Vec<u8>> for Atom {
    open spec fn obeys_from_spec() -> bool {
        true
    }

    closed spec fn from_spec(octets: Vec<u8>) -> Self {
        Atom { data: octets, hint: None }
    }
}

impl<'a> From<&'a [u8]> for Atom {
    fn from(octets: &'a [u8]) -> (r: Self)
        ensures
            r@ == (AtomV { data: octets@, hint: None }),
    {
        Atom::new(octets)
    }
}

/// A fresh buffer is no particular `Vec`, so the conversion is stated on
/// the view, by the `ensures` of `from`, rather than here.
impl<'a> vstd::std_specs::convert::FromSpecImpl<&'a [u8]> for Atom {
    open spec fn obeys_from_spec() -> bool {
        false
    }

    closed spec fn from_spec(octets: &'a [u8]) -> Self {
        arbitrary()
    }
}

impl From<Box<[u8]>> for Atom {
    fn from(octets: Box<[u8]>) -> (r: Self)
        ensures
            r@ == (AtomV { data: octets@, hint: None }),
    {
        Atom::new(&octets)
    }
}

/// The conversion is stated on the view, by the `ensures` of `from`.
impl vstd::std_specs::convert::FromSpecImpl<Box<[u8]>> for Atom {
    open spec fn obeys_from_spec() -> bool {
        false
    }

    closed spec fn from_spec(octets: Box<[u8]>) -> Self {
        arbitrary()
    }
}

impl<'a> From<&'a str> for Atom {
    fn from(text: &'a str) -> (r: Self)
        ensures
            r@ == (AtomV { data: text.spec_bytes(), hint: None }),
    {
        Atom::new(text.as_bytes())
    }
}

/// The conversion is stated on the view, by the `ensures` of `from`.
impl<'a> vstd::std_specs::convert::FromSpecImpl<&'a str> for Atom {
    open spec fn obeys_from_spec() -> bool {
        false
    }

    closed spec fn from_spec(text: &'a str) -> Self {
        arbitrary()
    }
}

impl From<String> for Atom {
    /// Takes the text's octets, as the text is written in UTF-8.
    fn from(text: String) -> (r: Self)
        ensures
            exists|written: &str|
                written@ == text@ && r@ == (AtomV { data: written.spec_bytes(), hint: None }),
    {
        let written = text.as_str();
        let r = Atom::from(written);
        assert(written@ == text@ && r@ == (AtomV { data: written.spec_bytes(), hint: None }));
        r
    }
}

/// The conversion is stated on the view, by the `ensures` of `from`.
impl vstd::std_specs::convert::FromSpecImpl<String> for Atom {
    open spec fn obeys_from_spec() -> bool {
        false
    }

    closed spec fn from_spec(text: String) -> Self {
        arbitrary()
    }
}

} // verus!
