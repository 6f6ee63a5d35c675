//! Building text out of octets, for the representations that are text.

use vstd::prelude::*;

verus! {

/// The characters an ASCII octet string reads as, one per octet.
pub open spec fn ascii_chars(octets: Seq<u8>) -> Seq<char> {
    octets.map_values(|octet: u8| octet as char)
}

/// Appends the character whose code is `octet` to `out`.
///
/// Calls `String::push` with `char::from(octet)`. The contract claims that the
/// string afterwards is the one before with that one character added, which
/// is what `String::push` documents.
#[verifier::external_body]
pub(crate) fn push_octet(out: &mut String, octet: u8)
    ensures
        final(out)@ == old(out)@.push(octet as char),
{
    out.push(char::from(octet));
}

/// Appends the characters `octets` read as, one per octet, to `out`.
pub fn push_octets(out: &mut String, octets: &[u8])
    ensures
        final(out)@ == old(out)@ + ascii_chars(octets@),
{
    let mut index: usize = 0;
    while index < octets.len()
        invariant
            index <= octets.len(),
            out@ == old(out)@ + ascii_chars(octets@.take(index as int)),
        decreases octets.len() - index,
    {
        push_octet(out, octets[index]);
        index = index + 1;
        assert(ascii_chars(octets@.take(index as int)) =~= ascii_chars(
            octets@.take(index - 1),
        ).push(octets@[index - 1] as char));
    }
    assert(octets@.take(octets.len() as int) =~= octets@);
}

/// Returns the text that `octets` read as, one character per octet.
pub fn string_of_octets(octets: &[u8]) -> (r: String)
    ensures
        r@ == ascii_chars(octets@),
{
    let mut out = String::new();
    push_octets(&mut out, octets);
    assert(out@ =~= ascii_chars(octets@));
    out
}

} // verus!
