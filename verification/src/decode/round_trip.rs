//! What reading gives back of what writing wrote.
//!
//! A parser that allows what an S-expression holds reads its canonical, basic
//! transport and advanced representations back as that S-expression, and
//! octets a parser restricted to the canonical representation accepts are
//! exactly the canonical representation of what it read.

use vstd::prelude::*;

use crate::decode::error::{ErrorKind, Failure};
use crate::base64::{lemma_decode_encode, lemma_encode_characters, lemma_encode_len, spec_encode};
use crate::decode::parser::{spec_within_transport, Parser};
use crate::encode::transport::spec_transport as spec_transport_bytes;
use crate::decode::reader::octet_string::{
    lemma_decimal_progress, lemma_simple_string_progress, spec_after_length, spec_decimal_from,
    spec_form, spec_length, spec_simple_string, spec_verbatim as spec_read_verbatim,
};
use crate::decode::reader::{
    lemma_skip_whitespace, lemma_string_progress, spec_check_list, spec_display_hint, spec_find,
    spec_parse, spec_run, spec_sexp, spec_skip_whitespace, spec_string, spec_transport,
    spec_value, OpenList, Outcome,
};
use crate::encode::canonical::{
    spec_canonical, spec_canonical_atom, spec_canonical_items, spec_decimal, spec_verbatim,
};
use crate::syntax::{spec_is_digit, spec_is_whitespace};
use crate::types::atom::AtomV;
use crate::types::sexp::{spec_depth, spec_depth_of_items, SexpV};

verus! {

/// The number a sequence of decimal digits stands for.
pub open spec fn digits_value(digits: Seq<u8>) -> int
    decreases digits.len(),
{
    if digits.len() == 0 {
        0
    } else {
        digits_value(digits.drop_last()) * 10 + (digits.last() - 0x30)
    }
}

/// Every octet is a decimal digit.
pub open spec fn all_digits(digits: Seq<u8>) -> bool {
    forall|i: int| 0 <= i < digits.len() ==> #[trigger] spec_is_digit(digits[i])
}

/// A length as §7.2 writes it: one or more digits, with no leading zero
/// unless the length is a single zero.
pub open spec fn well_formed_length(digits: Seq<u8>) -> bool {
    &&& digits.len() >= 1
    &&& all_digits(digits)
    &&& (digits.len() > 1 ==> digits[0] != 0x30)
}

/// A length written in decimal is well formed and stands for the length.
pub proof fn lemma_decimal_digits(value: nat)
    ensures
        well_formed_length(spec_decimal(value)),
        digits_value(spec_decimal(value)) == value,
        value >= 10 ==> spec_decimal(value).len() >= 2,
    decreases value,
{
    if value >= 10 {
        lemma_decimal_digits(value / 10);
        let s = spec_decimal(value);
        assert(s.drop_last() =~= spec_decimal(value / 10));
        assert(s.last() == (0x30 + value % 10) as u8);
        assert(s.last() - 0x30 == value % 10);
        assert(digits_value(s) == digits_value(spec_decimal(value / 10)) * 10 + (s.last() - 0x30));
        assert(value == (value / 10) * 10 + value % 10);
        assert(forall|i: int| 0 <= i < s.len() - 1 ==> s[i] == spec_decimal(value / 10)[i]);
        assert(s[0] == spec_decimal(value / 10)[0]);
        if spec_decimal(value / 10).len() == 1 {
            assert(value / 10 < 10);
            assert(1 <= value / 10);
        }
    } else {
        let s = spec_decimal(value);
        assert(s.drop_last() =~= Seq::<u8>::empty());
        assert(digits_value(s.drop_last()) == 0);
    }
}

proof fn lemma_digits_value_nonnegative(digits: Seq<u8>)
    requires
        all_digits(digits),
    ensures
        digits_value(digits) >= 0,
    decreases digits.len(),
{
    if digits.len() > 0 {
        assert(all_digits(digits.drop_last()));
        assert(spec_is_digit(digits[digits.len() - 1]));
        lemma_digits_value_nonnegative(digits.drop_last());
    }
}

/// A prefix of a sequence of digits stands for no more than the whole.
proof fn lemma_digits_prefix(digits: Seq<u8>, count: int)
    requires
        all_digits(digits),
        0 <= count <= digits.len(),
    ensures
        0 <= digits_value(digits.take(count)) <= digits_value(digits),
    decreases digits.len() - count,
{
    assert(all_digits(digits.take(count)));
    lemma_digits_value_nonnegative(digits.take(count));
    if count < digits.len() {
        lemma_digits_prefix(digits, count + 1);
        assert(digits.take(count + 1).drop_last() =~= digits.take(count));
        assert(digits.take(count + 1).last() == digits[count]);
        assert(spec_is_digit(digits[count]));
    } else {
        assert(digits.take(count) =~= digits);
    }
}

/// Reading a well-formed length from the middle of its digits on.
proof fn lemma_scan_digits(input: Seq<u8>, start: int, digits: Seq<u8>, count: int)
    requires
        0 <= start,
        start + digits.len() <= input.len(),
        input.subrange(start, start + digits.len()) == digits,
        well_formed_length(digits),
        digits_value(digits) <= usize::MAX,
        start + digits.len() == input.len() || !spec_is_digit(input[start + digits.len()]),
        0 <= count <= digits.len(),
    ensures
        spec_decimal_from(input, start, start + count, digits_value(digits.take(count)), count)
            == Ok::<(int, int), (crate::decode::error::ErrorKind, int)>(
            (digits_value(digits), start + digits.len()),
        ),
    decreases digits.len() - count,
{
    let position = start + count;
    if count < digits.len() {
        assert(input[position] == digits[count]);
        assert(spec_is_digit(digits[count]));
        lemma_digits_prefix(digits, count + 1);
        assert(digits.take(count + 1).drop_last() =~= digits.take(count));
        assert(digits.take(count + 1).last() == digits[count]);
        if count == 1 {
            assert(digits.take(1).drop_last() =~= Seq::<u8>::empty());
            assert(digits_value(digits.take(1).drop_last()) == 0);
            assert(digits.take(1).last() == digits[0]);
            assert(digits_value(digits.take(1)) == digits[0] - 0x30);
        }
        lemma_scan_digits(input, start, digits, count + 1);
    } else {
        assert(digits.take(count) =~= digits);
    }
}

/// A length written in decimal, followed by something other than a digit, is
/// read back as the length.
pub proof fn lemma_length_read(input: Seq<u8>, start: int, value: nat)
    requires
        0 <= start,
        start + spec_decimal(value).len() <= input.len(),
        input.subrange(start, start + spec_decimal(value).len()) == spec_decimal(value),
        value <= usize::MAX,
        start + spec_decimal(value).len() == input.len() || !spec_is_digit(
            input[start + spec_decimal(value).len()],
        ),
    ensures
        spec_length(input, start) == Ok::<(int, int), (crate::decode::error::ErrorKind, int)>(
            (value as int, start + spec_decimal(value).len()),
        ),
{
    lemma_decimal_digits(value);
    assert(spec_decimal(value).take(0) =~= Seq::<u8>::empty());
    lemma_scan_digits(input, start, spec_decimal(value), 0);
}

/// An octet string the parser's limits on octet strings allow.
pub open spec fn permits_octets(parser: Parser, octets: Seq<u8>) -> bool {
    &&& (octets.len() == 0 ==> parser.empty_atoms)
    &&& octets.len() <= parser.max_atom_len
}

/// An atom the parser allows, its display hint included.
pub open spec fn permits_atom(parser: Parser, atom: AtomV) -> bool {
    &&& permits_octets(parser, atom.data)
    &&& match atom.hint {
        Some(hint) => parser.hints && permits_octets(parser, hint),
        None => true,
    }
}

/// An S-expression every part of which the parser's restrictions of §8
/// allow, nesting apart: its atoms, its empty lists, and its lists that begin
/// with a list.
pub open spec fn permits(parser: Parser, s: SexpV) -> bool
    decreases s,
{
    match s {
        SexpV::Atom(atom) => permits_atom(parser, atom),
        SexpV::List(items) => {
            &&& (items.len() == 0 ==> parser.empty_lists)
            &&& (items.len() > 0 && items[0] is List ==> parser.list_as_first_element)
            &&& permits_items(parser, items)
        },
    }
}

/// Every element the parser allows.
pub open spec fn permits_items(parser: Parser, items: Seq<SexpV>) -> bool
    decreases items,
{
    if items.len() == 0 {
        true
    } else {
        permits_items(parser, items.drop_last()) && permits(parser, items.last())
    }
}

/// Each element of a list the parser allows is allowed, and nests no deeper
/// than the list less one.
pub proof fn lemma_item(parser: Parser, items: Seq<SexpV>, index: int)
    requires
        0 <= index < items.len(),
    ensures
        permits_items(parser, items) ==> permits(parser, items[index]),
        spec_depth(items[index]) <= spec_depth_of_items(items),
    decreases items.len(),
{
    if index < items.len() - 1 {
        lemma_item(parser, items.drop_last(), index);
    }
}

/// Reading goes on, once `value` is complete at `next` with `open` still
/// open: the value is the result, or becomes the innermost list's last
/// element.
pub open spec fn resume(
    parser: Parser,
    input: Seq<u8>,
    open: Seq<OpenList>,
    value: SexpV,
    next: int,
) -> Outcome<SexpV> {
    if open.len() == 0 {
        Ok((value, next))
    } else {
        spec_run(
            parser,
            input,
            open.drop_last().push((open.last().0, open.last().1.push(value))),
            next,
        )
    }
}

/// The canonical representations of two runs of elements, one after the
/// other.
pub proof fn lemma_canonical_items_append(first: Seq<SexpV>, second: Seq<SexpV>)
    ensures
        spec_canonical_items(first + second) == spec_canonical_items(first)
            + spec_canonical_items(second),
    decreases second.len(),
{
    if second.len() == 0 {
        assert(first + second =~= first);
        assert(spec_canonical_items(first) + spec_canonical_items(second) =~= spec_canonical_items(first));
    } else {
        lemma_canonical_items_append(first, second.drop_last());
        assert((first + second).drop_last() =~= first + second.drop_last());
        assert((first + second).last() == second.last());
        assert(spec_canonical_items(first + second) =~= spec_canonical_items(first)
            + spec_canonical_items(second));
    }
}

/// Octets found at `start` in the input: each part of them stands at its
/// offset.
pub proof fn lemma_found_part(input: Seq<u8>, start: int, found: Seq<u8>, from: int, to: int)
    requires
        0 <= start,
        start + found.len() <= input.len(),
        input.subrange(start, start + found.len()) == found,
        0 <= from <= to <= found.len(),
    ensures
        input.subrange(start + from, start + to) == found.subrange(from, to),
        forall|i: int| from <= i < to ==> input[start + i] == found[i],
{
    assert forall|i: int| from <= i < to implies input[start + i] == found[i] by {
        assert(input.subrange(start, start + found.len())[i] == input[start + i]);
    }
    assert(input.subrange(start + from, start + to) =~= found.subrange(from, to));
}

/// A verbatim octet string the parser allows is read back as its octets.
proof fn lemma_verbatim_read(parser: Parser, input: Seq<u8>, offset: int, octets: Seq<u8>)
    requires
        0 <= offset,
        offset + spec_verbatim(octets).len() <= input.len() <= usize::MAX,
        input.subrange(offset, offset + spec_verbatim(octets).len()) == spec_verbatim(octets),
        permits_octets(parser, octets),
    ensures
        spec_simple_string(parser, input, offset) == Ok::<(Seq<u8>, int), Failure>(
            (octets, offset + spec_verbatim(octets).len()),
        ),
{
    let digits = spec_decimal(octets.len());
    let written = spec_verbatim(octets);
    let n = digits.len() as int;
    lemma_decimal_digits(octets.len());
    lemma_found_part(input, offset, written, 0, written.len() as int);
    assert(written.subrange(0, n) =~= digits);
    lemma_found_part(input, offset, written, 0, n);
    assert(written[n] == 0x3a);
    assert(written.subrange(n + 1, written.len() as int) =~= octets);
    lemma_found_part(input, offset, written, n + 1, written.len() as int);
    lemma_length_read(input, offset, octets.len());
}

/// An atom's canonical representation is read back as the atom, by a parser
/// that allows it.
proof fn lemma_canonical_string(parser: Parser, input: Seq<u8>, offset: int, atom: AtomV)
    requires
        0 <= offset,
        offset + spec_canonical_atom(atom).len() <= input.len() <= usize::MAX,
        input.subrange(offset, offset + spec_canonical_atom(atom).len()) == spec_canonical_atom(atom),
        permits_atom(parser, atom),
    ensures
        spec_string(parser, input, offset) == Ok::<(AtomV, int), Failure>(
            (atom, offset + spec_canonical_atom(atom).len()),
        ),
{
    let written = spec_canonical_atom(atom);
    lemma_decimal_digits(atom.data.len());
    match atom.hint {
        Some(hint) => {
            lemma_decimal_digits(hint.len());
            let h = spec_verbatim(hint).len() as int;
            let inner = offset + 1;
            let hint_end = inner + h;
            let data_start = hint_end + 1;
            lemma_found_part(input, offset, written, 0, written.len() as int);
            assert(written.subrange(1, 1 + h) =~= spec_verbatim(hint));
            lemma_found_part(input, offset, written, 1, 1 + h);
            assert(spec_verbatim(hint)[0] == spec_decimal(hint.len())[0]);
            assert(spec_is_digit(spec_decimal(hint.len())[0]));
            lemma_verbatim_read(parser, input, inner, hint);
            assert(written[0] == 0x5b);
            assert(input[offset] == 0x5b);
            assert(spec_skip_whitespace(parser, input, inner) == inner);
            assert(written[1 + h] == 0x5d);
            assert(input[hint_end] == 0x5d);
            assert(spec_skip_whitespace(parser, input, hint_end) == hint_end);
            assert(written.subrange(2 + h, written.len() as int) =~= spec_verbatim(atom.data));
            lemma_found_part(input, offset, written, 2 + h, written.len() as int);
            assert(spec_verbatim(atom.data)[0] == spec_decimal(atom.data.len())[0]);
            assert(spec_is_digit(spec_decimal(atom.data.len())[0]));
            assert(spec_skip_whitespace(parser, input, hint_end + 1) == data_start);
            assert(crate::decode::reader::spec_display_hint(parser, input, offset) == Ok::<(Seq<u8>, int), Failure>((hint, data_start)));
            lemma_verbatim_read(parser, input, data_start, atom.data);
        },
        None => {
            lemma_found_part(input, offset, written, 0, written.len() as int);
            assert(spec_verbatim(atom.data)[0] == spec_decimal(atom.data.len())[0]);
            lemma_verbatim_read(parser, input, offset, atom.data);
        },
    }
}

/// Where a canonical representation begins: an opening parenthesis for a
/// list, and a bracket or a digit for an atom, none of them whitespace.
proof fn lemma_canonical_first(s: SexpV)
    ensures
        spec_canonical(s).len() >= 2,
        s is List ==> spec_canonical(s)[0] == 0x28,
        s is Atom ==> spec_canonical(s)[0] == 0x5b || spec_is_digit(spec_canonical(s)[0]),
        !spec_is_whitespace(spec_canonical(s)[0]),
        spec_canonical(s)[0] != 0x29,
        spec_canonical(s)[0] != 0x7b,
{
    match s {
        SexpV::Atom(atom) => {
            lemma_decimal_digits(atom.data.len());
            assert(spec_is_digit(spec_decimal(atom.data.len())[0]));
            assert(spec_verbatim(atom.data)[0] == spec_decimal(atom.data.len())[0]);
            if let Some(hint) = atom.hint {
                lemma_decimal_digits(hint.len());
            }
        },
        SexpV::List(_) => {},
    }
}

/// Reading the canonical representation of an S-expression the parser allows,
/// with lists open that leave room for its nesting, completes the
/// S-expression just past its representation.
pub proof fn lemma_run_canonical(
    parser: Parser,
    input: Seq<u8>,
    open: Seq<OpenList>,
    offset: int,
    s: SexpV,
)
    requires
        0 <= offset,
        offset + spec_canonical(s).len() <= input.len() <= usize::MAX,
        input.subrange(offset, offset + spec_canonical(s).len()) == spec_canonical(s),
        permits(parser, s),
        open.len() + spec_depth(s) <= parser.max_depth,
    ensures
        spec_run(parser, input, open, offset) == resume(
            parser,
            input,
            open,
            s,
            offset + spec_canonical(s).len(),
        ),
    decreases s, 0int,
{
    lemma_canonical_first(s);
    lemma_found_part(input, offset, spec_canonical(s), 0, 1);
    match s {
        SexpV::Atom(atom) => {
            lemma_canonical_string(parser, input, offset, atom);
        },
        SexpV::List(items) => {
            assert(items.take(0) =~= Seq::<SexpV>::empty());
            lemma_run_canonical_items(parser, input, open, offset, items, 0);
        },
    }
}

/// Reading the rest of a list's canonical representation, its first `count`
/// elements read.
#[verifier::rlimit(40)]
proof fn lemma_run_canonical_items(
    parser: Parser,
    input: Seq<u8>,
    open: Seq<OpenList>,
    start: int,
    items: Seq<SexpV>,
    count: int,
)
    requires
        0 <= start,
        0 <= count <= items.len(),
        start + spec_canonical(SexpV::List(items)).len() <= input.len() <= usize::MAX,
        input.subrange(start, start + spec_canonical(SexpV::List(items)).len()) == spec_canonical(
            SexpV::List(items),
        ),
        permits(parser, SexpV::List(items)),
        open.len() + spec_depth(SexpV::List(items)) <= parser.max_depth,
    ensures
        spec_run(
            parser,
            input,
            open.push((start, items.take(count))),
            start + 1 + spec_canonical_items(items.take(count)).len(),
        ) == resume(
            parser,
            input,
            open,
            SexpV::List(items),
            start + spec_canonical(SexpV::List(items)).len(),
        ),
    decreases items, items.len() - count,
{
    let whole = spec_canonical(SexpV::List(items));
    let offset = start + 1 + spec_canonical_items(items.take(count)).len();
    lemma_canonical_items_append(items.take(count), items.skip(count));
    assert(items.take(count) + items.skip(count) =~= items);
    if count < items.len() {
        let item = items[count];
        lemma_item(parser, items, count);
        assert(items.skip(count) =~= seq![item] + items.skip(count + 1));
        crate::encode::canonical::lemma_canonical_items_front(item, items.skip(count + 1));
        let item_end = offset + spec_canonical(item).len();
        assert(input.subrange(offset, item_end) =~= spec_canonical(item)) by {
            let before = spec_canonical_items(items.take(count));
            assert(whole =~= seq![0x28u8] + before + spec_canonical(item) + spec_canonical_items(
                items.skip(count + 1),
            ) + seq![0x29u8]);
            assert(whole.subrange(offset - start, item_end - start) =~= spec_canonical(item));
            lemma_found_part(input, start, whole, offset - start, item_end - start);
        }
        lemma_run_canonical(parser, input, open.push((start, items.take(count))), offset, item);
        let pushed = open.push((start, items.take(count)));
        assert(pushed.drop_last() =~= open);
        assert(pushed.last() == (start, items.take(count)));
        assert(items.take(count).push(item) =~= items.take(count + 1));
        assert(items.take(count + 1).drop_last() =~= items.take(count));
        assert(spec_canonical_items(items.take(count + 1)) == spec_canonical_items(items.take(count))
            + spec_canonical(item));
        lemma_run_canonical_items(parser, input, open, start, items, count + 1);
        assert(resume(parser, input, pushed, item, item_end) == spec_run(
            parser,
            input,
            open.push((start, items.take(count + 1))),
            item_end,
        ));
    } else {
        assert(items.take(count) =~= items);
        lemma_close_canonical(parser, input, open, start, items);
    }
}

/// Reading the parenthesis that closes a list's canonical representation,
/// every element read.
proof fn lemma_close_canonical(
    parser: Parser,
    input: Seq<u8>,
    open: Seq<OpenList>,
    start: int,
    items: Seq<SexpV>,
)
    requires
        0 <= start,
        start + spec_canonical(SexpV::List(items)).len() <= input.len() <= usize::MAX,
        input.subrange(start, start + spec_canonical(SexpV::List(items)).len()) == spec_canonical(
            SexpV::List(items),
        ),
        permits(parser, SexpV::List(items)),
    ensures
        spec_run(
            parser,
            input,
            open.push((start, items)),
            start + 1 + spec_canonical_items(items).len(),
        ) == resume(
            parser,
            input,
            open,
            SexpV::List(items),
            start + spec_canonical(SexpV::List(items)).len(),
        ),
{
    let whole = spec_canonical(SexpV::List(items));
    let offset = start + 1 + spec_canonical_items(items).len();
    lemma_found_part(input, start, whole, offset - start, offset - start + 1);
    assert(whole[offset - start] == 0x29);
    assert(input[offset] == 0x29);
    assert(spec_skip_whitespace(parser, input, offset) == offset);
    assert(spec_check_list(parser, items, start) == Ok::<(), Failure>(()));
    let pushed = open.push((start, items));
    assert(pushed.drop_last() =~= open);
    assert(pushed.last() == (start, items));
}

/// The canonical representation of an S-expression that a parser allows, and
/// that fits within its limits on nesting and on input, is read back as the
/// S-expression.
pub proof fn lemma_parse_canonical(parser: Parser, s: SexpV)
    requires
        permits(parser, s),
        spec_depth(s) <= parser.max_depth,
        spec_canonical(s).len() <= parser.max_input_len,
    ensures
        spec_parse(parser, spec_canonical(s)) == Ok::<SexpV, Failure>(s),
{
    let input = spec_canonical(s);
    lemma_canonical_first(s);
    assert(input.subrange(0, input.len() as int) =~= input);
    lemma_run_canonical(parser, input, Seq::empty(), 0, s);
    assert(spec_sexp(parser, input, 0) == spec_value(parser, input, 0));
}

/// Well-formed decimal digits are the decimal representation of the number
/// they stand for.
proof fn lemma_decimal_of_digits(digits: Seq<u8>)
    requires
        well_formed_length(digits),
    ensures
        digits_value(digits) >= 0,
        spec_decimal(digits_value(digits) as nat) == digits,
    decreases digits.len(),
{
    lemma_digits_value_nonnegative(digits);
    if digits.len() == 1 {
        assert(digits.drop_last() =~= Seq::<u8>::empty());
        assert(digits_value(digits.drop_last()) == 0);
        assert(spec_is_digit(digits[0]));
        assert(spec_decimal(digits_value(digits) as nat) =~= digits);
    } else {
        let rest = digits.drop_last();
        assert(rest[0] == digits[0]);
        assert(all_digits(rest));
        assert(spec_is_digit(digits[digits.len() - 1]));
        lemma_decimal_of_digits(rest);
        assert(digits_value(rest) >= 1) by {
            if rest.len() == 1 {
                assert(rest.drop_last() =~= Seq::<u8>::empty());
                assert(digits_value(rest.drop_last()) == 0);
                assert(spec_is_digit(rest[0]));
            } else {
                lemma_decimal_digits(digits_value(rest) as nat);
                if digits_value(rest) < 10 {
                    assert(spec_decimal(digits_value(rest) as nat).len() == 1);
                }
            }
        }
        let value = digits_value(digits);
        assert(value == digits_value(rest) * 10 + (digits.last() - 0x30));
        assert(value >= 10);
        assert(value / 10 == digits_value(rest));
        assert(value % 10 == digits.last() - 0x30);
        assert(spec_decimal(value as nat) =~= digits);
    }
}

/// A length read from `position` on, having read `value` from `count` digits
/// beginning at `start`, is what the digits from `start` to where reading
/// stopped write in decimal.
proof fn lemma_length_unique(input: Seq<u8>, start: int, position: int, value: int, count: int)
    requires
        0 <= start <= position <= input.len(),
        count == position - start,
        all_digits(input.subrange(start, position)),
        digits_value(input.subrange(start, position)) == value,
        count > 1 ==> input[start] != 0x30,
    ensures
        spec_decimal_from(input, start, position, value, count) matches Ok((read, next)) ==> {
            &&& position <= next <= input.len()
            &&& all_digits(input.subrange(start, next))
            &&& digits_value(input.subrange(start, next)) == read
            &&& (next - start > 1 ==> input[start] != 0x30)
        },
    decreases input.len() - position,
{
    if 0 <= position < input.len() && spec_is_digit(input[position]) {
        if !(count == 1 && value == 0) {
            let next = value * 10 + (input[position] - 0x30);
            if next <= usize::MAX {
                let digits = input.subrange(start, position + 1);
                assert(digits.drop_last() =~= input.subrange(start, position));
                assert(all_digits(digits));
                if count == 1 {
                    assert(input.subrange(start, position).drop_last() =~= Seq::<u8>::empty());
                    assert(digits_value(input.subrange(start, position).drop_last()) == 0);
                    assert(input[start] == input.subrange(start, position)[0]);
                }
                lemma_length_unique(input, start, position + 1, next, count + 1);
            }
        }
    }
}

/// With the advanced representation refused, an octet string is read only
/// from its verbatim form.
proof fn lemma_simple_string_unique(parser: Parser, input: Seq<u8>, position: int)
    requires
        !parser.advanced,
        0 <= position <= input.len(),
    ensures
        spec_simple_string(parser, input, position) matches Ok((octets, next)) ==> {
            &&& position < next <= input.len()
            &&& input.subrange(position, next) == spec_verbatim(octets)
        },
{
    lemma_simple_string_progress(parser, input, position);
    if let Ok((octets, next)) = spec_simple_string(parser, input, position) {
        assert(spec_is_digit(input[position]));
        assert(input.subrange(position, position) =~= Seq::<u8>::empty());
        assert(all_digits(input.subrange(position, position)));
        assert(digits_value(input.subrange(position, position)) == 0);
        lemma_length_unique(input, position, position, 0, 0);
        lemma_decimal_progress(input, position, position, 0, 0);
        let (len, after) = spec_length(input, position)->Ok_0;
        let digits = input.subrange(position, after);
        assert(after > position) by {
            if after == position {
                assert(spec_decimal_from(input, position, position, 0, 0) == spec_decimal_from(
                    input,
                    position,
                    position + 1,
                    input[position] - 0x30,
                    1,
                ));
            }
        }
        lemma_decimal_of_digits(digits);
        assert(input[after] == 0x3a);
        assert(octets == input.subrange(after + 1, next));
        assert(input.subrange(position, next) =~= spec_verbatim(octets));
    }
}

/// With the advanced representation refused, an atom is read only from its
/// canonical representation.
proof fn lemma_string_unique(parser: Parser, input: Seq<u8>, position: int)
    requires
        !parser.advanced,
        0 <= position <= input.len(),
    ensures
        spec_string(parser, input, position) matches Ok((atom, next)) ==> {
            &&& position < next <= input.len()
            &&& input.subrange(position, next) == spec_canonical_atom(atom)
        },
{
    lemma_string_progress(parser, input, position);
    if let Ok((atom, next)) = spec_string(parser, input, position) {
        if 0 <= position < input.len() && input[position] == 0x5b {
            lemma_skip_whitespace(parser, input, position + 1);
            lemma_simple_string_unique(parser, input, position + 1);
            let (hint, after) = spec_simple_string(parser, input, position + 1)->Ok_0;
            lemma_skip_whitespace(parser, input, after);
            lemma_skip_whitespace(parser, input, after + 1);
            assert(input[after] == 0x5d);
            lemma_simple_string_unique(parser, input, after + 1);
            assert(input.subrange(position, next) =~= spec_canonical_atom(atom));
        } else {
            lemma_simple_string_unique(parser, input, position);
        }
    }
}

/// What the lists still open have read of a canonical representation: for
/// each, its opening parenthesis and its elements so far.
pub open spec fn open_bytes(open: Seq<OpenList>) -> Seq<u8>
    decreases open.len(),
{
    if open.len() == 0 {
        Seq::empty()
    } else {
        open_bytes(open.drop_last()) + seq![0x28u8] + spec_canonical_items(open.last().1)
    }
}

/// With the advanced representation refused, reading that completes a value
/// has read exactly its canonical representation, from where the outermost
/// list still open began.
proof fn lemma_run_unique(parser: Parser, input: Seq<u8>, open: Seq<OpenList>, base: int, offset: int)
    requires
        !parser.advanced,
        0 <= base <= offset <= input.len(),
        input.subrange(base, offset) == open_bytes(open),
    ensures
        spec_run(parser, input, open, offset) matches Ok((value, end)) ==> {
            &&& offset <= end <= input.len()
            &&& input.subrange(base, end) == spec_canonical(value)
        },
    decreases input.len() - offset,
{
    lemma_skip_whitespace(parser, input, offset);
    if let Ok((value, end)) = spec_run(parser, input, open, offset) {
        assert(offset < input.len());
        let octet = input[offset];
        if octet == 0x28 {
            let next = open.push((offset, Seq::empty()));
            assert(next.drop_last() =~= open);
            assert(spec_canonical_items(Seq::<SexpV>::empty()) =~= Seq::<u8>::empty());
            assert(input.subrange(base, offset + 1) =~= open_bytes(next));
            lemma_run_unique(parser, input, next, base, offset + 1);
        } else {
            let (read, rest, next) = if octet == 0x29 {
                (SexpV::List(open.last().1), open.drop_last(), offset + 1)
            } else {
                let (atom, after) = spec_string(parser, input, offset)->Ok_0;
                (SexpV::Atom(atom), open, after)
            };
            assert(input.subrange(base, next) =~= open_bytes(rest) + spec_canonical(read)) by {
                if octet == 0x29 {
                    assert(input.subrange(base, offset + 1) =~= input.subrange(base, offset)
                        + seq![0x29u8]);
                } else {
                    lemma_string_unique(parser, input, offset);
                    assert(input.subrange(base, next) =~= input.subrange(base, offset)
                        + input.subrange(offset, next));
                }
            }
            if rest.len() > 0 {
                let parent = rest.last();
                let resumed = rest.drop_last().push((parent.0, parent.1.push(read)));
                assert(resumed.drop_last() =~= rest.drop_last());
                assert(parent.1.push(read).drop_last() =~= parent.1);
                assert(open_bytes(resumed) =~= open_bytes(rest) + spec_canonical(read));
                lemma_string_progress(parser, input, offset);
                lemma_run_unique(parser, input, resumed, base, next);
            } else {
                assert(open_bytes(rest) =~= Seq::<u8>::empty());
                lemma_string_progress(parser, input, offset);
            }
        }
    }
}

/// Octets that a parser refusing the advanced and basic transport
/// representations accepts are exactly the canonical representation of what
/// it read: an S-expression has no second canonical spelling.
pub proof fn lemma_canonical_unique(parser: Parser, input: Seq<u8>)
    requires
        !parser.advanced,
        !parser.transport,
    ensures
        spec_parse(parser, input) matches Ok(value) ==> spec_canonical(value) == input,
{
    if let Ok(value) = spec_parse(parser, input) {
        lemma_skip_whitespace(parser, input, 0);
        assert(input.subrange(0, 0) =~= open_bytes(Seq::empty()));
        lemma_run_unique(parser, input, Seq::empty(), 0, 0);
        let (read, end) = spec_sexp(parser, input, 0)->Ok_0;
        lemma_skip_whitespace(parser, input, end);
        assert(input.subrange(0, input.len() as int) =~= input);
    }
}

/// The first `octet` at or after `from` is the one at `at` where none comes
/// between.
pub proof fn lemma_find_first(input: Seq<u8>, from: int, at: int, octet: u8)
    requires
        0 <= from <= at < input.len(),
        input[at] == octet,
        forall|i: int| from <= i < at ==> input[i] != octet,
    ensures
        spec_find(input, from, octet) == Some(at),
    decreases at - from,
{
    if from < at {
        lemma_find_first(input, from + 1, at, octet);
    }
}

/// Two parsers that agree on the restrictions of §8 allow the same
/// S-expressions.
pub proof fn lemma_permits_same(first: Parser, second: Parser, s: SexpV)
    requires
        first.hints == second.hints,
        first.empty_atoms == second.empty_atoms,
        first.max_atom_len == second.max_atom_len,
        first.empty_lists == second.empty_lists,
        first.list_as_first_element == second.list_as_first_element,
    ensures
        permits(first, s) == permits(second, s),
    decreases s, 0int,
{
    if let SexpV::List(items) = s {
        lemma_permits_items_same(first, second, items);
    }
}

proof fn lemma_permits_items_same(first: Parser, second: Parser, items: Seq<SexpV>)
    requires
        first.hints == second.hints,
        first.empty_atoms == second.empty_atoms,
        first.max_atom_len == second.max_atom_len,
        first.empty_lists == second.empty_lists,
        first.list_as_first_element == second.list_as_first_element,
    ensures
        permits_items(first, items) == permits_items(second, items),
    decreases items, items.len(),
{
    if items.len() > 0 {
        lemma_permits_items_same(first, second, items.drop_last());
        lemma_permits_same(first, second, items.last());
    }
}

/// The basic transport representation of an S-expression that a parser
/// allows, and that fits within its limits, is read back as the S-expression
/// by a parser that accepts that representation.
pub proof fn lemma_parse_transport(parser: Parser, s: SexpV)
    requires
        parser.transport,
        permits(parser, s),
        spec_depth(s) <= parser.max_depth,
        spec_transport_bytes(s).len() <= parser.max_input_len,
    ensures
        spec_parse(parser, spec_transport_bytes(s)) == Ok::<SexpV, Failure>(s),
{
    let input = spec_transport_bytes(s);
    let canonical = spec_canonical(s);
    let encoded = spec_encode(canonical);
    let close = 1 + encoded.len() as int;
    lemma_encode_len(canonical);
    lemma_encode_characters(canonical);
    assert(input[0] == 0x7b);
    assert(input[close] == 0x7d);
    assert forall|i: int| 1 <= i < close implies input[i] != 0x7d by {
        assert(input[i] == encoded[i - 1]);
    }
    lemma_find_first(input, 1, close, 0x7d);
    assert(input.subrange(1, close) =~= encoded);
    lemma_decode_encode(canonical);
    let inner = spec_within_transport(parser);
    lemma_permits_same(parser, inner, s);
    lemma_parse_canonical(inner, s);
    assert(spec_transport(parser, input, 0) == Ok::<(SexpV, int), Failure>((s, close + 1)));
    assert(spec_skip_whitespace(parser, input, 0) == 0);
    lemma_skip_whitespace(parser, input, close + 1);
}

} // verus!
