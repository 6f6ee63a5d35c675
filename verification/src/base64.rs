//! Base-64 coding, as the representations that use it require.
//!
//! RFC 9804 §4.5 encodes one octet string in base 64, and §6.1 encodes a whole
//! canonical S-expression that way. Both cite RFC 4648 for the coding itself,
//! so this is the standard alphabet, with `+` and `/` as the last two
//! characters and `=` as padding.

use vstd::prelude::*;

use crate::syntax::spec_is_whitespace;
use crate::text::{ascii_chars, push_octets};

verus! {

/// The character of the standard alphabet of RFC 4648 §4 that stands for a
/// six-bit value.
pub open spec fn spec_sextet_char(value: u8) -> u8 {
    if value < 26 {
        (0x41 + value) as u8
    } else if value < 52 {
        (0x61 + value - 26) as u8
    } else if value < 62 {
        (0x30 + value - 52) as u8
    } else if value == 62 {
        0x2b
    } else {
        0x2f
    }
}

/// The six-bit value a character of the standard alphabet stands for, or
/// `None` for any other octet.
pub open spec fn spec_sextet_value(octet: u8) -> Option<u8> {
    if 0x41 <= octet <= 0x5a {
        Some((octet - 0x41) as u8)
    } else if 0x61 <= octet <= 0x7a {
        Some((octet - 0x61 + 26) as u8)
    } else if 0x30 <= octet <= 0x39 {
        Some((octet - 0x30 + 52) as u8)
    } else if octet == 0x2b {
        Some(62)
    } else if octet == 0x2f {
        Some(63)
    } else {
        None
    }
}

/// The padding character, `=`.
pub open spec fn spec_padding() -> u8 {
    0x3d
}

/// The four characters one group of one to three octets encodes to, a
/// partial group padded with `=` as RFC 4648 §4 requires.
pub open spec fn spec_encode_group(group: Seq<u8>) -> Seq<u8> {
    let b0 = group[0];
    let b1: u8 = if group.len() > 1 { group[1] } else { 0 };
    let b2: u8 = if group.len() > 2 { group[2] } else { 0 };
    let s0 = b0 >> 2u8;
    let s1 = ((b0 & 3u8) << 4u8) | (b1 >> 4u8);
    let s2 = ((b1 & 15u8) << 2u8) | (b2 >> 6u8);
    let s3 = b2 & 63u8;
    seq![
        spec_sextet_char(s0),
        spec_sextet_char(s1),
        if group.len() > 1 { spec_sextet_char(s2) } else { spec_padding() },
        if group.len() > 2 { spec_sextet_char(s3) } else { spec_padding() },
    ]
}

/// The base-64 encoding of an octet string: four characters for every group
/// of three octets, whole or partial.
pub open spec fn spec_encode(octets: Seq<u8>) -> Seq<u8>
    decreases octets.len(),
{
    if octets.len() == 0 {
        Seq::empty()
    } else if octets.len() <= 3 {
        spec_encode_group(octets)
    } else {
        spec_encode_group(octets.take(3)) + spec_encode(octets.skip(3))
    }
}

/// How many characters `octets` octets encode to, padding included.
pub open spec fn spec_encoded_len(octets: nat) -> nat {
    ((octets + 2) / 3 * 4) as nat
}

/// The encoding of an octet string is as long as [`spec_encoded_len`] says.
pub proof fn lemma_encode_len(octets: Seq<u8>)
    ensures
        spec_encode(octets).len() == spec_encoded_len(octets.len()),
    decreases octets.len(),
{
    if octets.len() > 3 {
        lemma_encode_len(octets.skip(3));
    }
}

/// Encoding two octet strings one after the other, the first a whole number
/// of groups, gives the encoding of the two together.
///
/// This is why a writer may code whole groups as they arrive and leave only
/// the last partial group for the end.
pub proof fn lemma_encode_append(first: Seq<u8>, second: Seq<u8>)
    requires
        first.len() % 3 == 0,
    ensures
        spec_encode(first + second) == spec_encode(first) + spec_encode(second),
    decreases first.len(),
{
    if first.len() == 0 {
        assert(first + second =~= second);
        assert(spec_encode(first) + spec_encode(second) =~= spec_encode(second));
    } else {
        lemma_encode_append(first.skip(3), second);
        let both = first + second;
        assert(both.take(3) =~= first.take(3));
        assert(both.skip(3) =~= first.skip(3) + second);
        if first.len() == 3 {
            assert(first.take(3) =~= first);
            assert(first.skip(3) =~= Seq::<u8>::empty());
            assert(spec_encode(first.skip(3)) =~= Seq::<u8>::empty());
        }
        if second.len() == 0 {
            assert(both =~= first);
            assert(spec_encode(second) =~= Seq::<u8>::empty());
            assert(spec_encode(first) + spec_encode(second) =~= spec_encode(first));
        } else {
            assert(spec_encode(both) =~= spec_encode_group(first.take(3)) + spec_encode(
                both.skip(3),
            ));
            assert(spec_encode(first) + spec_encode(second) =~= spec_encode_group(first.take(3))
                + spec_encode(first.skip(3)) + spec_encode(second));
        }
    }
}

/// Returns the character of the standard alphabet for a six-bit value.
fn sextet_char(value: u8) -> (r: u8)
    requires
        value < 64,
    ensures
        r == spec_sextet_char(value),
{
    if value < 26 {
        0x41 + value
    } else if value < 52 {
        0x61 + value - 26
    } else if value < 62 {
        0x30 + value - 52
    } else if value == 62 {
        0x2b
    } else {
        0x2f
    }
}

/// Returns how many characters `octets` octets encode to, padding included.
///
/// A count past the largest `usize` is reported as the largest `usize`.
pub fn encoded_len(octets: usize) -> (r: usize)
    ensures
        r as int == crate::types::sexp::saturated(spec_encoded_len(octets as nat) as int),
{
    // Every group of three octets, whole or partial, becomes four characters.
    let groups: usize = octets / 3 + if octets % 3 > 0 { 1 } else { 0 };
    assert(groups == (octets + 2) / 3);
    if groups > usize::MAX / 4 {
        usize::MAX
    } else {
        groups * 4
    }
}

/// Encodes one group of one to three octets into four characters, padding a
/// partial group with `=` as RFC 4648 §4 requires.
fn encode_group(group: &[u8]) -> (r: [u8; 4])
    requires
        1 <= group.len() <= 3,
    ensures
        r@ == spec_encode_group(group@),
{
    let b0: u8 = group[0];
    let b1: u8 = if group.len() > 1 { group[1] } else { 0 };
    let b2: u8 = if group.len() > 2 { group[2] } else { 0 };
    let bits: u32 = ((b0 as u32) << 16u32) | ((b1 as u32) << 8u32) | (b2 as u32);
    let s0 = ((bits >> 18u32) & 0x3f) as u8;
    let s1 = ((bits >> 12u32) & 0x3f) as u8;
    let s2 = ((bits >> 6u32) & 0x3f) as u8;
    let s3 = (bits & 0x3f) as u8;
    assert(s0 == b0 >> 2u8 && s1 == ((b0 & 3u8) << 4u8) | (b1 >> 4u8) && s2 == ((b1 & 15u8)
        << 2u8) | (b2 >> 6u8) && s3 == b2 & 63u8 && s0 < 64 && s1 < 64 && s2 < 64 && s3 < 64)
        by (bit_vector)
        requires
            bits == ((b0 as u32) << 16u32) | ((b1 as u32) << 8u32) | (b2 as u32),
            s0 == ((bits >> 18u32) & 0x3f) as u8,
            s1 == ((bits >> 12u32) & 0x3f) as u8,
            s2 == ((bits >> 6u32) & 0x3f) as u8,
            s3 == (bits & 0x3f) as u8,
    ;
    let c0 = sextet_char(s0);
    let c1 = sextet_char(s1);
    let c2 = if group.len() > 1 { sextet_char(s2) } else { 0x3d };
    let c3 = if group.len() > 2 { sextet_char(s3) } else { 0x3d };
    let r = [c0, c1, c2, c3];
    assert(r@ =~= spec_encode_group(group@));
    r
}

/// Appends the base-64 encoding of `octets` to `out`.
pub fn encode_into(octets: &[u8], out: &mut String)
    ensures
        final(out)@ == old(out)@ + ascii_chars(spec_encode(octets@)),
        final(out)@.len() == old(out)@.len() + spec_encoded_len(octets@.len()),
{
    proof {
        lemma_encode_len(octets@);
    }
    let encoded = encode(octets);
    push_octets(out, encoded.as_slice());
}

/// Returns the base-64 encoding of `octets`.
pub fn encode(octets: &[u8]) -> (r: Vec<u8>)
    ensures
        r@ == spec_encode(octets@),
{
    let mut out: Vec<u8> = Vec::new();
    encode_onto(octets, &mut out);
    assert(out@ =~= spec_encode(octets@));
    out
}

/// Appends the base-64 encoding of `octets` to `out`, as octets.
pub fn encode_onto(octets: &[u8], out: &mut Vec<u8>)
    ensures
        final(out)@ == old(out)@ + spec_encode(octets@),
{
    let mut index: usize = 0;
    assert(octets@.skip(0) =~= octets@);
    while index < octets.len()
        invariant
            index <= octets.len(),
            old(out)@ + spec_encode(octets@) == out@ + spec_encode(octets@.skip(index as int)),
        decreases octets.len() - index,
    {
        let rest = octets.len() - index;
        let take: usize = if rest < 3 { rest } else { 3 };
        let group = encode_group(slice_range(octets, index, index + take));
        let ghost tail = octets@.skip(index as int);
        proof {
            assert(octets@.subrange(index as int, index + take) =~= tail.take(take as int));
            if tail.len() <= 3 {
                assert(tail.take(take as int) =~= tail);
                assert(octets@.skip(index + take) =~= Seq::<u8>::empty());
            } else {
                assert(tail.skip(3) =~= octets@.skip(index + 3));
            }
        }
        out.push(group[0]);
        out.push(group[1]);
        out.push(group[2]);
        out.push(group[3]);
        proof {
            assert(group@ =~= seq![group[0], group[1], group[2], group[3]]);
        }
        index = index + take;
    }
    assert(octets@.skip(octets.len() as int) =~= Seq::<u8>::empty());
}

/// Returns the octets of `octets` from `start` up to `end`.
pub fn slice_range(octets: &[u8], start: usize, end: usize) -> (r: &[u8])
    requires
        start <= end <= octets.len(),
    ensures
        r@ == octets@.subrange(start as int, end as int),
{
    &octets[start..end]
}

/// An encoder that codes in base 64 whatever is written to it, three octets
/// at a time.
///
/// Octets arrive in whatever sizes the caller writes them, and base 64 codes
/// three at a time, so up to two octets wait here between writes. What each
/// write codes is handed back, for the caller to pass on to wherever the
/// encoding goes. [`Writer::finish`] codes those last octets and pads them,
/// and must be called for the encoding to be complete.
pub struct Writer {
    pending: Vec<u8>,
}

impl View for Writer {
    type V = Seq<u8>;

    /// The octets written and not yet coded.
    closed spec fn view(&self) -> Seq<u8> {
        self.pending@
    }
}

impl Writer {
    #[verifier::type_invariant]
    spec fn fewer_than_a_group(&self) -> bool {
        self.pending@.len() < 3
    }

    /// What a write of `octets` consumes, given what was waiting.
    pub open spec fn spec_taken(waiting: Seq<u8>, octets: Seq<u8>) -> nat {
        if octets.len() == 0 {
            0
        } else if waiting.len() > 0 {
            if octets.len() < 3 - waiting.len() {
                octets.len()
            } else {
                (3 - waiting.len()) as nat
            }
        } else if octets.len() < 3 {
            octets.len()
        } else {
            (octets.len() - octets.len() % 3) as nat
        }
    }

    /// Creates an encoder with nothing waiting.
    pub fn new() -> (r: Self)
        ensures
            r@ == Seq::<u8>::empty(),
    {
        Writer { pending: Vec::new() }
    }

    /// Takes octets from the front of `octets`, and returns how many it took
    /// along with the characters they completed.
    ///
    /// Octets that complete no group wait until a later write or
    /// [`Writer::finish`]. Everything taken and everything waiting before, cut
    /// at the last whole group, is coded now, and the rest waits.
    pub fn write(&mut self, octets: &[u8]) -> (r: (usize, Vec<u8>))
        ensures
            r.0 == Self::spec_taken(old(self)@, octets@),
            r.0 <= octets.len(),
            octets.len() > 0 ==> r.0 > 0,
            ({
                let all = old(self)@ + octets@.take(r.0 as int);
                let cut = all.len() - all.len() % 3;
                &&& r.1@ == spec_encode(all.take(cut))
                &&& final(self)@ == all.skip(cut)
            }),
            final(self)@.len() < 3,
    {
        proof {
            use_type_invariant(&*self);
        }
        let ghost waiting = self.pending@;
        if octets.len() == 0 {
            proof {
                assert(waiting + octets@.take(0) =~= waiting);
                assert(waiting.take(0) =~= Seq::<u8>::empty());
                assert(waiting.skip(0) =~= waiting);
            }
            return (0, Vec::new());
        }
        // Fill the waiting group first, and code it once it is whole.
        if self.pending.len() > 0 {
            let room = 3 - self.pending.len();
            let taken: usize = if octets.len() < room { octets.len() } else { room };
            let mut pending = Vec::new();
            std::mem::swap(&mut pending, &mut self.pending);
            let mut index: usize = 0;
            while index < taken
                invariant
                    index <= taken <= octets.len(),
                    taken + waiting.len() <= 3,
                    pending@ == waiting + octets@.take(index as int),
                decreases taken - index,
            {
                pending.push(octets[index]);
                index = index + 1;
                assert(pending@ =~= waiting + octets@.take(index as int));
            }
            if pending.len() < 3 {
                proof {
                    assert(pending@.take(0) =~= Seq::<u8>::empty());
                    assert(pending@.skip(0) =~= pending@);
                }
                self.pending = pending;
                return (taken, Vec::new());
            }
            let group = encode_group(pending.as_slice());
            let mut out: Vec<u8> = Vec::new();
            out.push(group[0]);
            out.push(group[1]);
            out.push(group[2]);
            out.push(group[3]);
            proof {
                assert(pending@.take(3) =~= pending@);
                assert(pending@.skip(3) =~= Seq::<u8>::empty());
                assert(out@ =~= group@);
            }
            return (taken, out);
        }
        let whole = octets.len() - octets.len() % 3;
        if whole == 0 {
            let pending = crate::types::atom::copy_octets(octets);
            self.pending = pending;
            proof {
                assert(waiting + octets@.take(octets.len() as int) =~= octets@);
                assert(octets@.take(0) =~= Seq::<u8>::empty());
                assert(octets@.skip(0) =~= octets@);
            }
            return (octets.len(), Vec::new());
        }
        let out = encode(slice_range(octets, 0, whole));
        proof {
            let all = waiting + octets@.take(whole as int);
            assert(all =~= octets@.subrange(0, whole as int));
            assert(all.take(whole as int) =~= all);
            assert(all.skip(whole as int) =~= Seq::<u8>::empty());
        }
        (whole, out)
    }

    /// Takes all of `octets`, one call of [`Writer::write`] after another,
    /// and returns the characters they completed: the encoding of what was
    /// waiting and the octets together, as far as they make whole groups, the
    /// rest left waiting.
    pub fn write_all(&mut self, octets: &[u8]) -> (r: Vec<u8>)
        ensures
            spec_streamed(r@, old(self)@ + octets@, final(self)@),
    {
        let ghost start = self@;
        let mut out: Vec<u8> = Vec::new();
        let mut at: usize = 0;
        proof {
            use_type_invariant(&*self);
            assert(start.skip(0) =~= start);
            assert(start.take(0) =~= Seq::<u8>::empty());
            assert(spec_encode(Seq::<u8>::empty()) =~= Seq::<u8>::empty());
            assert(start + octets@.take(0) =~= start);
        }
        while at < octets.len()
            invariant
                at <= octets.len(),
                spec_streamed(out@, start + octets@.take(at as int), self@),
            decreases octets.len() - at,
        {
            let rest = slice_range(octets, at, octets.len());
            let ghost waiting = self@;
            let ghost emitted = out@;
            let (taken, coded) = self.write(rest);
            proof {
                lemma_stream_write(
                    emitted,
                    start + octets@.take(at as int),
                    waiting,
                    rest@,
                    taken as nat,
                );
                assert(start + octets@.take(at as int) + rest@.take(taken as int) =~= start
                    + octets@.take(at + taken));
            }
            let mut index: usize = 0;
            let ghost before = out@;
            while index < coded.len()
                invariant
                    index <= coded.len(),
                    out@ == before + coded@.take(index as int),
                decreases coded.len() - index,
            {
                out.push(coded[index]);
                index = index + 1;
                assert(out@ =~= before + coded@.take(index as int));
            }
            assert(coded@.take(coded.len() as int) =~= coded@);
            at = at + taken;
        }
        assert(octets@.take(at as int) =~= octets@);
        out
    }

    /// Codes the octets still waiting, pads them, and returns the characters
    /// that end the encoding.
    pub fn finish(self) -> (r: Vec<u8>)
        ensures
            r@ == spec_encode(self@),
    {
        proof {
            use_type_invariant(&self);
        }
        if self.pending.len() > 0 {
            let group = encode_group(self.pending.as_slice());
            let mut out: Vec<u8> = Vec::new();
            out.push(group[0]);
            out.push(group[1]);
            out.push(group[2]);
            out.push(group[3]);
            assert(out@ =~= group@);
            out
        } else {
            Vec::new()
        }
    }
}

/// Where a writer stands after a run of writes: it has taken the octets
/// `taken`, `waiting` of them wait at the end, and what it handed out is the
/// encoding of all the rest, a whole number of groups.
pub open spec fn spec_streamed(emitted: Seq<u8>, taken: Seq<u8>, waiting: Seq<u8>) -> bool {
    let coded = taken.len() - waiting.len();
    &&& waiting.len() < 3
    &&& coded >= 0
    &&& coded % 3 == 0
    &&& taken.skip(coded) == waiting
    &&& emitted == spec_encode(taken.take(coded))
}

/// A writer that has taken nothing has handed out nothing.
pub proof fn lemma_stream_start()
    ensures
        spec_streamed(Seq::empty(), Seq::empty(), Seq::empty()),
{
    assert(Seq::<u8>::empty().skip(0) =~= Seq::<u8>::empty());
    assert(Seq::<u8>::empty().take(0) =~= Seq::<u8>::empty());
}

/// A write keeps what a writer hands out in step with what it takes: the
/// characters of this write extend what was handed out before, as far as the
/// octets taken so far make whole groups.
pub proof fn lemma_stream_write(
    emitted: Seq<u8>,
    taken: Seq<u8>,
    waiting: Seq<u8>,
    octets: Seq<u8>,
    count: nat,
)
    requires
        spec_streamed(emitted, taken, waiting),
        count <= octets.len(),
    ensures
        ({
            let all = waiting + octets.take(count as int);
            let cut = all.len() - all.len() % 3;
            spec_streamed(
                emitted + spec_encode(all.take(cut)),
                taken + octets.take(count as int),
                all.skip(cut),
            )
        }),
{
    let all = waiting + octets.take(count as int);
    let cut = all.len() - all.len() % 3;
    let coded = taken.len() - waiting.len();
    let grown = taken + octets.take(count as int);
    assert(taken =~= taken.take(coded) + waiting) by {
        assert(taken.skip(coded) == waiting);
    }
    assert(grown =~= taken.take(coded) + all);
    assert(grown.take(coded + cut) =~= taken.take(coded) + all.take(cut));
    assert(grown.skip(coded + cut) =~= all.skip(cut));
    lemma_encode_append(taken.take(coded), all.take(cut));
}

/// Finishing completes the encoding: what a writer handed out, followed by
/// what finishing hands out, is the encoding of every octet it took.
pub proof fn lemma_stream_finish(emitted: Seq<u8>, taken: Seq<u8>, waiting: Seq<u8>)
    requires
        spec_streamed(emitted, taken, waiting),
    ensures
        emitted + spec_encode(waiting) == spec_encode(taken),
{
    let coded = taken.len() - waiting.len();
    assert(taken =~= taken.take(coded) + waiting) by {
        assert(taken.skip(coded) == waiting);
    }
    lemma_encode_append(taken.take(coded), waiting);
}

/// What writing all of `chunk` hands out and leaves waiting, one call of
/// [`Writer::write`] after another on what the calls before did not take, as
/// `std::io::Write::write_all` does, `waiting` waiting to begin with.
pub open spec fn spec_write_all(waiting: Seq<u8>, chunk: Seq<u8>) -> (Seq<u8>, Seq<u8>)
    decreases chunk.len(),
{
    let count = Writer::spec_taken(waiting, chunk);
    if chunk.len() == 0 || count == 0 || count > chunk.len() {
        (Seq::empty(), waiting)
    } else {
        let all = waiting + chunk.take(count as int);
        let cut = all.len() - all.len() % 3;
        let (later, left) = spec_write_all(all.skip(cut), chunk.skip(count as int));
        (spec_encode(all.take(cut)) + later, left)
    }
}

/// What writing each chunk in turn hands out and leaves waiting.
pub open spec fn spec_write_chunks(waiting: Seq<u8>, chunks: Seq<Seq<u8>>) -> (Seq<u8>, Seq<u8>)
    decreases chunks.len(),
{
    if chunks.len() == 0 {
        (Seq::empty(), waiting)
    } else {
        let (first, left) = spec_write_all(waiting, chunks[0]);
        let (rest, last) = spec_write_chunks(left, chunks.drop_first());
        (first + rest, last)
    }
}

/// The chunks one after another.
pub open spec fn spec_concat(chunks: Seq<Seq<u8>>) -> Seq<u8>
    decreases chunks.len(),
{
    if chunks.len() == 0 {
        Seq::empty()
    } else {
        chunks[0] + spec_concat(chunks.drop_first())
    }
}

/// Writing a whole chunk keeps a writer in step with what it took.
#[verifier::rlimit(50)]
proof fn lemma_stream_write_all(emitted: Seq<u8>, taken: Seq<u8>, waiting: Seq<u8>, chunk: Seq<u8>)
    requires
        spec_streamed(emitted, taken, waiting),
    ensures
        spec_streamed(
            emitted + spec_write_all(waiting, chunk).0,
            taken + chunk,
            spec_write_all(waiting, chunk).1,
        ),
    decreases chunk.len(),
{
    let count = Writer::spec_taken(waiting, chunk);
    if chunk.len() == 0 {
        assert(emitted + Seq::<u8>::empty() =~= emitted);
        assert(taken + chunk =~= taken);
    } else {
        assert(0 < count <= chunk.len());
        let all = waiting + chunk.take(count as int);
        let cut = all.len() - all.len() % 3;
        lemma_stream_write(emitted, taken, waiting, chunk, count);
        let emitted1 = emitted + spec_encode(all.take(cut));
        let taken1 = taken + chunk.take(count as int);
        lemma_stream_write_all(emitted1, taken1, all.skip(cut), chunk.skip(count as int));
        let (later, left) = spec_write_all(all.skip(cut), chunk.skip(count as int));
        assert(spec_write_all(waiting, chunk) == (spec_encode(all.take(cut)) + later, left));
        assert(taken1 + chunk.skip(count as int) =~= taken + chunk);
        assert(emitted1 + later =~= emitted + (spec_encode(all.take(cut)) + later));
    }
}

/// Writing the chunks in turn keeps a writer in step with what it took.
proof fn lemma_stream_chunks(
    emitted: Seq<u8>,
    taken: Seq<u8>,
    waiting: Seq<u8>,
    chunks: Seq<Seq<u8>>,
)
    requires
        spec_streamed(emitted, taken, waiting),
    ensures
        spec_streamed(
            emitted + spec_write_chunks(waiting, chunks).0,
            taken + spec_concat(chunks),
            spec_write_chunks(waiting, chunks).1,
        ),
    decreases chunks.len(),
{
    if chunks.len() == 0 {
        assert(emitted + Seq::<u8>::empty() =~= emitted);
        assert(taken + Seq::<u8>::empty() =~= taken);
    } else {
        let (first, left) = spec_write_all(waiting, chunks[0]);
        lemma_stream_write_all(emitted, taken, waiting, chunks[0]);
        lemma_stream_chunks(emitted + first, taken + chunks[0], left, chunks.drop_first());
        let (rest, last) = spec_write_chunks(left, chunks.drop_first());
        assert(emitted + first + rest =~= emitted + (first + rest));
        assert(taken + chunks[0] + spec_concat(chunks.drop_first()) =~= taken + spec_concat(chunks));
    }
}

/// Whatever sizes octets are written to a fresh writer in, what the writes
/// hand out, followed by what finishing hands out, is the encoding of all the
/// octets one after another.
pub proof fn lemma_writer_whatever_the_sizes(chunks: Seq<Seq<u8>>)
    ensures
        spec_write_chunks(Seq::empty(), chunks).0 + spec_encode(
            spec_write_chunks(Seq::empty(), chunks).1,
        ) == spec_encode(spec_concat(chunks)),
{
    lemma_stream_start();
    lemma_stream_chunks(Seq::empty(), Seq::empty(), Seq::empty(), chunks);
    assert(Seq::<u8>::empty() + spec_write_chunks(Seq::empty(), chunks).0 =~= spec_write_chunks(
        Seq::empty(),
        chunks,
    ).0);
    assert(Seq::<u8>::empty() + spec_concat(chunks) =~= spec_concat(chunks));
    lemma_stream_finish(
        spec_write_chunks(Seq::empty(), chunks).0,
        spec_concat(chunks),
        spec_write_chunks(Seq::empty(), chunks).1,
    );
}

/// The three octets four six-bit values decode to.
pub open spec fn spec_decode_group(s0: u8, s1: u8, s2: u8, s3: u8) -> Seq<u8> {
    seq![(s0 << 2u8) | (s1 >> 4u8), (s1 << 4u8) | (s2 >> 2u8), (s2 << 6u8) | s3]
}

/// The octets a group of two or three six-bit values ended by padding decodes
/// to, or `None` where the last value carries bits that no octet holds.
pub open spec fn spec_decode_padded(group: Seq<u8>) -> Option<Seq<u8>> {
    if group.len() == 3 {
        if group[2] & 3u8 == 0 {
            Some(spec_decode_group(group[0], group[1], group[2], 0).take(2))
        } else {
            None
        }
    } else {
        if group[1] & 15u8 == 0 {
            Some(spec_decode_group(group[0], group[1], 0, 0).take(1))
        } else {
            None
        }
    }
}

/// Decoding from `position` on, having decoded `out` so far, with the six-bit
/// values of a group begun at `start` in `group`, the last of them read at
/// `last`, and `pads` padding characters read after them. Once a padded group
/// is complete, `done` holds, and nothing but whitespace may follow.
///
/// An octet that is neither whitespace, nor a character of the alphabet, nor
/// padding where padding may stand, is reported at its offset. A padded group
/// whose last value carries bits that no octet holds is reported at the offset
/// of that value, and a group the input ends in the middle of at the offset it
/// began at.
pub open spec fn spec_decode_from(
    input: Seq<u8>,
    position: int,
    out: Seq<u8>,
    group: Seq<u8>,
    start: int,
    last: int,
    pads: int,
    done: bool,
) -> Result<Seq<u8>, int>
    decreases input.len() - position,
{
    if position < 0 || position >= input.len() {
        if group.len() == 0 && pads == 0 {
            Ok(out)
        } else {
            Err(start)
        }
    } else {
        let octet = input[position];
        if spec_is_whitespace(octet) {
            spec_decode_from(input, position + 1, out, group, start, last, pads, done)
        } else if done {
            Err(position)
        } else if octet == spec_padding() {
            if group.len() < 2 {
                Err(position)
            } else if group.len() + pads + 1 == 4 {
                match spec_decode_padded(group) {
                    None => Err(last),
                    Some(octets) => spec_decode_from(
                        input,
                        position + 1,
                        out + octets,
                        Seq::empty(),
                        start,
                        last,
                        0,
                        true,
                    ),
                }
            } else {
                spec_decode_from(input, position + 1, out, group, start, last, pads + 1, false)
            }
        } else if pads > 0 {
            Err(position)
        } else {
            match spec_sextet_value(octet) {
                None => Err(position),
                Some(value) => {
                    let begun = if group.len() == 0 {
                        position
                    } else {
                        start
                    };
                    if group.len() == 3 {
                        spec_decode_from(
                            input,
                            position + 1,
                            out + spec_decode_group(group[0], group[1], group[2], value),
                            Seq::empty(),
                            begun,
                            position,
                            0,
                            false,
                        )
                    } else {
                        spec_decode_from(
                            input,
                            position + 1,
                            out,
                            group.push(value),
                            begun,
                            position,
                            0,
                            false,
                        )
                    }
                },
            }
        }
    }
}

/// The octets a base-64 encoding decodes to, whitespace anywhere ignored, or
/// the offset of what is wrong with it.
pub open spec fn spec_decode(input: Seq<u8>) -> Result<Seq<u8>, int> {
    spec_decode_from(input, 0, Seq::empty(), Seq::empty(), 0, 0, 0, false)
}

/// The alphabet is read back as the values it was written for, and none of
/// its characters is whitespace or padding.
proof fn lemma_sextet_round_trip(value: u8)
    requires
        value < 64,
    ensures
        spec_sextet_value(spec_sextet_char(value)) == Some(value),
        !spec_is_whitespace(spec_sextet_char(value)),
        spec_sextet_char(value) != spec_padding(),
{
}

/// The six-bit values of a group, and the octets they decode back to.
proof fn lemma_group_bits(b0: u8, b1: u8, b2: u8)
    ensures
        ({
            let s0 = b0 >> 2u8;
            let s1 = ((b0 & 3u8) << 4u8) | (b1 >> 4u8);
            let s2 = ((b1 & 15u8) << 2u8) | (b2 >> 6u8);
            let s3 = b2 & 63u8;
            &&& s0 < 64 && s1 < 64 && s2 < 64 && s3 < 64
            &&& (s0 << 2u8) | (s1 >> 4u8) == b0
            &&& (s1 << 4u8) | (s2 >> 2u8) == b1
            &&& (s2 << 6u8) | s3 == b2
            &&& (b2 == 0 ==> s2 & 3u8 == 0 && s3 == 0)
            &&& (b1 == 0 && b2 == 0 ==> s1 & 15u8 == 0 && s2 == 0)
        }),
{
    assert({
        let s0 = b0 >> 2u8;
        let s1 = ((b0 & 3u8) << 4u8) | (b1 >> 4u8);
        let s2 = ((b1 & 15u8) << 2u8) | (b2 >> 6u8);
        let s3 = b2 & 63u8;
        &&& s0 < 64 && s1 < 64 && s2 < 64 && s3 < 64
        &&& (s0 << 2u8) | (s1 >> 4u8) == b0
        &&& (s1 << 4u8) | (s2 >> 2u8) == b1
        &&& (s2 << 6u8) | s3 == b2
        &&& (b2 == 0 ==> s2 & 3u8 == 0 && s3 == 0)
        &&& (b1 == 0 && b2 == 0 ==> s1 & 15u8 == 0 && s2 == 0)
    }) by (bit_vector);
}

/// Decoding reads back what encoding wrote, from a group boundary on.
proof fn lemma_decode_encoded(
    input: Seq<u8>,
    position: int,
    out: Seq<u8>,
    octets: Seq<u8>,
    start: int,
    last: int,
)
    requires
        0 <= position <= input.len(),
        input.subrange(position, input.len() as int) == spec_encode(octets),
    ensures
        spec_decode_from(input, position, out, Seq::empty(), start, last, 0, false) == Ok::<
            Seq<u8>,
            int,
        >(out + octets),
    decreases octets.len(),
{
    if octets.len() == 0 {
        assert(out + octets =~= out);
        assert(input.len() == position);
    } else {
        let group: Seq<u8> = if octets.len() <= 3 {
            octets
        } else {
            octets.take(3)
        };
        let chars = spec_encode_group(group);
        let tail = input.subrange(position, input.len() as int);
        let rest_chars = if octets.len() > 3 {
            spec_encode(octets.skip(3))
        } else {
            Seq::empty()
        };
        assert(tail =~= chars + rest_chars);
        assert(tail[0] == input[position]);
        assert(tail[1] == input[position + 1]);
        assert(tail[2] == input[position + 2]);
        assert(tail[3] == input[position + 3]);
        assert(input[position] == chars[0]);
        assert(input[position + 1] == chars[1]);
        assert(input[position + 2] == chars[2]);
        assert(input[position + 3] == chars[3]);
        let b0 = group[0];
        let b1: u8 = if group.len() > 1 { group[1] } else { 0 };
        let b2: u8 = if group.len() > 2 { group[2] } else { 0 };
        let s0 = b0 >> 2u8;
        let s1 = ((b0 & 3u8) << 4u8) | (b1 >> 4u8);
        let s2 = ((b1 & 15u8) << 2u8) | (b2 >> 6u8);
        let s3 = b2 & 63u8;
        lemma_group_bits(b0, b1, b2);
        lemma_sextet_round_trip(s0);
        lemma_sextet_round_trip(s1);
        lemma_sextet_round_trip(s2);
        lemma_sextet_round_trip(s3);
        let e = Seq::<u8>::empty();
        if octets.len() >= 3 {
            let rest = octets.skip(3);
            assert(input.subrange(position + 4, input.len() as int) =~= spec_encode(rest)) by {
                assert(input.subrange(position + 4, input.len() as int) =~= tail.skip(4));
                assert(tail.skip(4) =~= rest_chars);
                if octets.len() == 3 {
                    assert(rest =~= Seq::<u8>::empty());
                }
            }
            let after = out + spec_decode_group(s0, s1, s2, s3);
            assert(spec_decode_group(s0, s1, s2, s3) =~= group);
            lemma_decode_encoded(input, position + 4, after, rest, start, last);
            assert(group + rest =~= octets);
            assert(after + rest =~= out + octets);
            assert(seq![s0].push(s1) =~= seq![s0, s1]);
            assert(seq![s0, s1].push(s2) =~= seq![s0, s1, s2]);
            assert(e.push(s0) =~= seq![s0]);
            let goal = spec_decode_from(input, position + 4, after, e, position, position + 3, 0,
                false);
            assert(spec_decode_from(input, position + 3, out, seq![s0, s1, s2], position,
                position + 2, 0, false) == goal);
            assert(spec_decode_from(input, position + 2, out, seq![s0, s1], position, position
                + 1, 0, false) == goal);
            assert(spec_decode_from(input, position + 1, out, seq![s0], position, position, 0,
                false) == goal);
            assert(spec_decode_from(input, position, out, e, start, last, 0, false) == goal);
        } else {
            assert(input.subrange(position, input.len() as int) =~= chars);
            assert(input.len() == position + 4);
            let decoded = spec_decode_padded(if octets.len() == 2 {
                seq![s0, s1, s2]
            } else {
                seq![s0, s1]
            });
            assert(decoded == Some(octets)) by {
                if octets.len() == 2 {
                    assert(spec_decode_group(s0, s1, s2, 0).take(2) =~= octets);
                } else {
                    assert(spec_decode_group(s0, s1, 0, 0).take(1) =~= octets);
                }
            }
            let goal = Ok::<Seq<u8>, int>(out + octets);
            assert(e.push(s0) =~= seq![s0]);
            assert(seq![s0].push(s1) =~= seq![s0, s1]);
            assert(seq![s0, s1].push(s2) =~= seq![s0, s1, s2]);
            if octets.len() == 2 {
                assert(spec_decode_from(input, position + 4, out + octets, e, position, position
                    + 2, 0, true) == goal);
                assert(spec_decode_from(input, position + 3, out, seq![s0, s1, s2], position,
                    position + 2, 0, false) == goal);
                assert(spec_decode_from(input, position + 2, out, seq![s0, s1], position,
                    position + 1, 0, false) == goal);
            } else {
                assert(spec_decode_from(input, position + 4, out + octets, e, position, position
                    + 1, 0, true) == goal);
                assert(spec_decode_from(input, position + 3, out, seq![s0, s1], position,
                    position + 1, 1, false) == goal);
                assert(spec_decode_from(input, position + 2, out, seq![s0, s1], position,
                    position + 1, 0, false) == goal);
            }
            assert(spec_decode_from(input, position + 1, out, seq![s0], position, position, 0,
                false) == goal);
            assert(spec_decode_from(input, position, out, e, start, last, 0, false) == goal);
        }
    }
}

/// Whether a character is one of the standard alphabet or the padding.
pub open spec fn spec_is_encoding_character(octet: u8) -> bool {
    spec_sextet_value(octet) is Some || octet == spec_padding()
}

/// Every character of an encoding is a character of the alphabet or
/// padding, so none of them is a brace.
pub proof fn lemma_encode_characters(octets: Seq<u8>)
    ensures
        forall|i: int|
            0 <= i < spec_encode(octets).len() ==> spec_is_encoding_character(
                #[trigger] spec_encode(octets)[i],
            ) && spec_encode(octets)[i] != 0x7d,
    decreases octets.len(),
{
    if octets.len() > 0 {
        let group: Seq<u8> = if octets.len() <= 3 {
            octets
        } else {
            octets.take(3)
        };
        let b0 = group[0];
        let b1: u8 = if group.len() > 1 { group[1] } else { 0 };
        let b2: u8 = if group.len() > 2 { group[2] } else { 0 };
        lemma_group_bits(b0, b1, b2);
        let s0 = b0 >> 2u8;
        let s1 = ((b0 & 3u8) << 4u8) | (b1 >> 4u8);
        let s2 = ((b1 & 15u8) << 2u8) | (b2 >> 6u8);
        let s3 = b2 & 63u8;
        lemma_sextet_round_trip(s0);
        lemma_sextet_round_trip(s1);
        lemma_sextet_round_trip(s2);
        lemma_sextet_round_trip(s3);
        let chars = spec_encode_group(group);
        assert(forall|i: int|
            0 <= i < 4 ==> spec_is_encoding_character(#[trigger] chars[i]) && chars[i] != 0x7d);
        if octets.len() > 3 {
            lemma_encode_characters(octets.skip(3));
            let whole = spec_encode(octets);
            assert(whole =~= chars + spec_encode(octets.skip(3)));
            assert forall|i: int| 0 <= i < whole.len() implies spec_is_encoding_character(
                #[trigger] whole[i],
            ) && whole[i] != 0x7d by {
                if i >= 4 {
                    assert(whole[i] == spec_encode(octets.skip(3))[i - 4]);
                }
            }
        }
    }
}

/// Two decodings that succeed together, and give the same octets where they
/// do.
pub open spec fn decode_alike(first: Result<Seq<u8>, int>, second: Result<Seq<u8>, int>) -> bool {
    &&& (first is Ok <==> second is Ok)
    &&& (first is Ok ==> first == second)
}

/// Decoding `a`, a whitespace octet `o`, then `b`, from a point of the first
/// and the matching point of `a` followed by `b`, in the same state but for
/// where the group and its last value began, which only a failure reports.
proof fn lemma_decode_insert(
    a: Seq<u8>,
    o: u8,
    b: Seq<u8>,
    py: int,
    inserted: bool,
    out: Seq<u8>,
    group: Seq<u8>,
    s1: int,
    l1: int,
    s2: int,
    l2: int,
    pads: int,
    done: bool,
)
    requires
        spec_is_whitespace(o),
        0 <= py <= (a + b).len(),
        inserted ==> py >= a.len(),
        !inserted ==> py <= a.len(),
    ensures
        decode_alike(
            spec_decode_from(
                a + seq![o] + b,
                if inserted {
                    py + 1
                } else {
                    py
                },
                out,
                group,
                s1,
                l1,
                pads,
                done,
            ),
            spec_decode_from(a + b, py, out, group, s2, l2, pads, done),
        ),
    decreases (a + b).len() - py, if inserted {
        0int
    } else {
        1int
    },
{
    let x = a + seq![o] + b;
    let y = a + b;
    assert(x.len() == y.len() + 1);
    if !inserted && py == a.len() {
        assert(x[py] == o);
        assert(spec_decode_from(x, py, out, group, s1, l1, pads, done) == spec_decode_from(
            x,
            py + 1,
            out,
            group,
            s1,
            l1,
            pads,
            done,
        ));
        lemma_decode_insert(a, o, b, py, true, out, group, s1, l1, s2, l2, pads, done);
    } else if py < y.len() {
        let px = if inserted {
            py + 1
        } else {
            py
        };
        assert(x[px] == y[py]);
        let octet = y[py];
        if spec_is_whitespace(octet) {
            lemma_decode_insert(a, o, b, py + 1, inserted, out, group, s1, l1, s2, l2, pads, done);
        } else if done {
        } else if octet == spec_padding() {
            if group.len() >= 2 {
                if group.len() + pads + 1 == 4 {
                    if let Some(octets) = spec_decode_padded(group) {
                        lemma_decode_insert(
                            a,
                            o,
                            b,
                            py + 1,
                            inserted,
                            out + octets,
                            Seq::empty(),
                            s1,
                            l1,
                            s2,
                            l2,
                            0,
                            true,
                        );
                    }
                } else {
                    lemma_decode_insert(
                        a,
                        o,
                        b,
                        py + 1,
                        inserted,
                        out,
                        group,
                        s1,
                        l1,
                        s2,
                        l2,
                        pads + 1,
                        false,
                    );
                }
            }
        } else if pads > 0 {
        } else {
            if let Some(value) = spec_sextet_value(octet) {
                let b1 = if group.len() == 0 {
                    px
                } else {
                    s1
                };
                let b2 = if group.len() == 0 {
                    py
                } else {
                    s2
                };
                if group.len() == 3 {
                    lemma_decode_insert(
                        a,
                        o,
                        b,
                        py + 1,
                        inserted,
                        out + spec_decode_group(group[0], group[1], group[2], value),
                        Seq::empty(),
                        b1,
                        px,
                        b2,
                        py,
                        0,
                        false,
                    );
                } else {
                    lemma_decode_insert(
                        a,
                        o,
                        b,
                        py + 1,
                        inserted,
                        out,
                        group.push(value),
                        b1,
                        px,
                        b2,
                        py,
                        0,
                        false,
                    );
                }
            }
        }
    } else {
    }
}

/// Whitespace anywhere in a base-64 encoding is passed over: inserting any of
/// the six whitespace octets at any point of an input changes neither whether
/// it decodes nor what it decodes to.
pub proof fn lemma_decode_ignores_whitespace(a: Seq<u8>, o: u8, b: Seq<u8>)
    requires
        spec_is_whitespace(o),
    ensures
        spec_decode(a + seq![o] + b) is Ok <==> spec_decode(a + b) is Ok,
        spec_decode(a + b) is Ok ==> spec_decode(a + seq![o] + b) == spec_decode(a + b),
{
    lemma_decode_insert(a, o, b, 0, false, Seq::empty(), Seq::empty(), 0, 0, 0, 0, 0, false);
}

/// Decoding an encoding gives back the octets that were encoded.
pub proof fn lemma_decode_encode(octets: Seq<u8>)
    ensures
        spec_decode(spec_encode(octets)) == Ok::<Seq<u8>, int>(octets),
{
    let input = spec_encode(octets);
    assert(input.subrange(0, input.len() as int) =~= input);
    lemma_decode_encoded(input, 0, Seq::empty(), octets, 0, 0);
    assert(Seq::<u8>::empty() + octets =~= octets);
}

/// Where decoding fails lies within the input.
pub proof fn lemma_decode_offset(
    input: Seq<u8>,
    position: int,
    out: Seq<u8>,
    group: Seq<u8>,
    start: int,
    last: int,
    pads: int,
    done: bool,
)
    requires
        0 <= position <= input.len(),
        0 <= start <= position,
        0 <= last <= position,
    ensures
        spec_decode_from(input, position, out, group, start, last, pads, done) matches Err(offset)
            ==> 0 <= offset <= input.len(),
    decreases input.len() - position,
{
    if position < input.len() {
        let octet = input[position];
        if spec_is_whitespace(octet) {
            lemma_decode_offset(input, position + 1, out, group, start, last, pads, done);
        } else if !done {
            if octet == spec_padding() {
                if group.len() >= 2 {
                    if group.len() + pads + 1 == 4 {
                        if let Some(octets) = spec_decode_padded(group) {
                            lemma_decode_offset(input, position + 1, out + octets, Seq::empty(),
                                start, last, 0, true);
                        }
                    } else {
                        lemma_decode_offset(input, position + 1, out, group, start, last, pads
                            + 1, false);
                    }
                }
            } else if pads <= 0 {
                if let Some(value) = spec_sextet_value(octet) {
                    let begun = if group.len() == 0 {
                        position
                    } else {
                        start
                    };
                    if group.len() == 3 {
                        lemma_decode_offset(input, position + 1, out + spec_decode_group(group[0],
                            group[1], group[2], value), Seq::empty(), begun, position, 0, false);
                    } else {
                        lemma_decode_offset(input, position + 1, out, group.push(value), begun,
                            position, 0, false);
                    }
                }
            }
        }
    }
}

/// Returns the six-bit value a character of the alphabet stands for.
fn sextet_value(octet: u8) -> (r: Option<u8>)
    ensures
        r == spec_sextet_value(octet),
        r matches Some(v) ==> v < 64,
{
    if 0x41 <= octet && octet <= 0x5a {
        Some(octet - 0x41)
    } else if 0x61 <= octet && octet <= 0x7a {
        Some(octet - 0x61 + 26)
    } else if 0x30 <= octet && octet <= 0x39 {
        Some(octet - 0x30 + 52)
    } else if octet == 0x2b {
        Some(62)
    } else if octet == 0x2f {
        Some(63)
    } else {
        None
    }
}

/// Returns the octets a base-64 encoding decodes to, or the offset within
/// `input` of what is wrong with it.
///
/// Whitespace may stand anywhere and is ignored, as RFC 9804 §6.1 and §4.5
/// allow. The encoding has to end as RFC 4648 requires: in a whole group, a
/// padded group being the last, with no bits set that no octet holds.
pub fn decode(input: &[u8]) -> (r: Result<Vec<u8>, usize>)
    ensures
        match r {
            Ok(octets) => spec_decode(input@) == Ok::<Seq<u8>, int>(octets@),
            Err(offset) => spec_decode(input@) == Err::<Seq<u8>, int>(offset as int),
        },
{
    let mut out: Vec<u8> = Vec::new();
    let mut group: Vec<u8> = Vec::new();
    let mut start: usize = 0;
    let mut last: usize = 0;
    let mut pads: usize = 0;
    let mut done = false;
    let mut position: usize = 0;
    while position < input.len()
        invariant
            position <= input.len(),
            group@.len() <= 3,
            pads <= 1,
            pads > 0 ==> group@.len() == 2,
            forall|i: int| 0 <= i < group@.len() ==> group@[i] < 64,
            start <= position,
            last <= position,
            spec_decode_from(input@, position as int, out@, group@, start as int, last as int,
                pads as int, done) == spec_decode(input@),
        decreases input.len() - position,
    {
        let octet = input[position];
        if crate::syntax::is_whitespace(octet) {
            position = position + 1;
            continue;
        }
        if done {
            return Err(position);
        }
        if octet == 0x3d {
            if group.len() < 2 {
                return Err(position);
            }
            if group.len() + pads + 1 == 4 {
                let ghost before = out@;
                if group.len() == 3 {
                    if group[2] & 3 != 0 {
                        return Err(last);
                    }
                    let first = (group[0] << 2u8) | (group[1] >> 4u8);
                    let second = (group[1] << 4u8) | (group[2] >> 2u8);
                    out.push(first);
                    out.push(second);
                } else {
                    if group[1] & 15 != 0 {
                        return Err(last);
                    }
                    let first = (group[0] << 2u8) | (group[1] >> 4u8);
                    out.push(first);
                }
                proof {
                    let decoded = spec_decode_padded(group@);
                    assert(decoded is Some);
                    assert(out@ =~= before + decoded.unwrap());
                }
                group = Vec::new();
                pads = 0;
                done = true;
                position = position + 1;
                continue;
            }
            pads = pads + 1;
            position = position + 1;
            continue;
        }
        if pads > 0 {
            return Err(position);
        }
        match sextet_value(octet) {
            None => {
                return Err(position);
            },
            Some(value) => {
                if group.len() == 0 {
                    start = position;
                }
                last = position;
                if group.len() == 3 {
                    let first = (group[0] << 2u8) | (group[1] >> 4u8);
                    let second = (group[1] << 4u8) | (group[2] >> 2u8);
                    let third = (group[2] << 6u8) | value;
                    let ghost before = out@;
                    out.push(first);
                    out.push(second);
                    out.push(third);
                    assert(out@ =~= before + spec_decode_group(group@[0], group@[1], group@[2], value));
                    group = Vec::new();
                } else {
                    group.push(value);
                }
                position = position + 1;
            },
        }
    }
    if group.len() == 0 && pads == 0 {
        Ok(out)
    } else {
        Err(start)
    }
}

} // verus!
