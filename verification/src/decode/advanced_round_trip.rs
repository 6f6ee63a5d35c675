//! What reading gives back of the advanced representation.
//!
//! A parser that accepts the advanced representation and hexadecimal octet
//! strings, and allows what an S-expression holds, reads the S-expression's
//! advanced representation back as the S-expression.

use vstd::prelude::*;

use crate::decode::error::Failure;
use crate::decode::parser::Parser;
use crate::decode::reader::octet_string::{
    spec_form, spec_hexadecimal, spec_hexadecimal_from, spec_simple_string, spec_token_end,
};
use crate::decode::reader::quoted::{
    spec_escape, spec_quoted as spec_read_quoted, spec_quoted_from, spec_simple_escape,
};
use crate::decode::reader::{
    lemma_skip_whitespace, spec_check_list, spec_display_hint, spec_parse, spec_run, spec_sexp,
    spec_skip_whitespace, spec_string, spec_value, OpenList,
};
use crate::decode::round_trip::{
    lemma_found_part, lemma_item, permits, permits_atom, permits_octets, resume,
};
use crate::encode::advanced::{
    spec_advanced, spec_advanced_atom, spec_advanced_items, spec_advanced_octets,
    spec_all_text, spec_escape_letter, spec_hex_body, spec_hex_digit, spec_hexadecimal as
    spec_write_hexadecimal, spec_is_text, spec_quoted, spec_quoted_body, spec_quoted_octet,
};
use crate::syntax::{
    spec_hex_value, spec_is_digit, spec_is_token, spec_is_token_start, spec_is_whitespace,
    spec_qualifies_as_token,
};
use crate::types::atom::AtomV;
use crate::types::sexp::{spec_depth, spec_depth_of_items, SexpV};

verus! {

/// Nothing that could continue a token follows `end`.
pub open spec fn ends_token(input: Seq<u8>, end: int) -> bool {
    end == input.len() || (0 <= end < input.len() && !spec_is_token(input[end]))
}

/// A token reads up to where it ends.
proof fn lemma_token_end_at(input: Seq<u8>, start: int, octets: Seq<u8>, count: int)
    requires
        0 <= start,
        start + octets.len() <= input.len(),
        input.subrange(start, start + octets.len()) == octets,
        forall|i: int| 0 <= i < octets.len() ==> #[trigger] spec_is_token(octets[i]),
        ends_token(input, start + octets.len()),
        0 <= count <= octets.len(),
    ensures
        spec_token_end(input, start + count) == start + octets.len(),
    decreases octets.len() - count,
{
    if count < octets.len() {
        lemma_found_part(input, start, octets, count, count + 1);
        assert(spec_is_token(octets[count]));
        lemma_token_end_at(input, start, octets, count + 1);
    }
}

/// The escapes a quoted string is written with are read back as the octets
/// they stand for.
proof fn lemma_quoted_octet_read(octet: u8)
    ensures
        spec_escape_letter(octet) matches Some(letter) ==> spec_simple_escape(letter) == Some(
            octet,
        ),
        (octet == 0x22 || octet == 0x5c) ==> spec_simple_escape(octet) == Some(octet),
{
}

/// A quoted string's body is read back octet by octet, from the middle on.
proof fn lemma_quoted_read_from(input: Seq<u8>, start: int, octets: Seq<u8>, count: int)
    requires
        0 <= start,
        start + spec_quoted(octets).len() <= input.len(),
        input.subrange(start, start + spec_quoted(octets).len()) == spec_quoted(octets),
        spec_all_text(octets),
        0 <= count <= octets.len(),
    ensures
        spec_quoted_from(
            input,
            start,
            None,
            start + 1 + spec_quoted_body(octets.take(count)).len(),
            octets.take(count),
        ) == Ok::<(Seq<u8>, int), Failure>((octets, start + spec_quoted(octets).len())),
    decreases octets.len() - count,
{
    let written = spec_quoted(octets);
    let position = start + 1 + spec_quoted_body(octets.take(count)).len();
    if count < octets.len() {
        lemma_quoted_body_split(octets, count);
        let octet = octets[count];
        let piece = spec_quoted_octet(octet);
        let from = 1 + spec_quoted_body(octets.take(count)).len() as int;
        assert(written.subrange(from, from + piece.len() as int) =~= piece);
        lemma_found_part(input, start, written, from, from + piece.len() as int);
        assert(octets.take(count + 1).drop_last() =~= octets.take(count));
        assert(octets.take(count + 1).last() == octet);
        assert(spec_quoted_body(octets.take(count + 1)) == spec_quoted_body(octets.take(count))
            + piece);
        assert(octets.take(count).push(octet) =~= octets.take(count + 1));
        assert(spec_is_text(octet));
        lemma_quoted_octet_read(octet);
        lemma_quoted_read_from(input, start, octets, count + 1);
        assert(written[from] == piece[0]);
        assert(input[position] == piece[0]);
        if piece.len() == 2 {
            assert(written[from + 1] == piece[1]);
            assert(input[position + 1] == piece[1]);
            assert(input[position] == 0x5c);
            assert(spec_escape(input, position + 1) == Ok::<(Option<u8>, int), Failure>(
                (Some(octet), position + 2),
            ));
            assert(octets.take(count) + crate::decode::reader::quoted::optional_octet(Some(octet))
                =~= octets.take(count + 1));
        } else {
            assert(piece == seq![octet]);
            assert(input[position] == octet);
            assert(octet != 0x22 && octet != 0x5c && 0x20 <= octet <= 0x7e);
        }
    } else {
        assert(octets.take(count) =~= octets);
        let from = 1 + spec_quoted_body(octets).len() as int;
        lemma_found_part(input, start, written, from, from + 1);
        assert(written[from] == 0x22);
        assert(input[position] == 0x22);
    }
}

/// The bodies of a quoted string written from two runs of octets, one after
/// the other.
proof fn lemma_quoted_body_append(first: Seq<u8>, second: Seq<u8>)
    ensures
        spec_quoted_body(first + second) == spec_quoted_body(first) + spec_quoted_body(second),
    decreases second.len(),
{
    if second.len() == 0 {
        assert(first + second =~= first);
        assert(spec_quoted_body(first) + spec_quoted_body(second) =~= spec_quoted_body(first));
    } else {
        lemma_quoted_body_append(first, second.drop_last());
        assert((first + second).drop_last() =~= first + second.drop_last());
        assert((first + second).last() == second.last());
        assert(spec_quoted_body(first + second) =~= spec_quoted_body(first) + spec_quoted_body(
            second,
        ));
    }
}

/// A quoted string's body, cut at an octet: the body before it, the octet's
/// piece, and the body after it.
proof fn lemma_quoted_body_split(octets: Seq<u8>, count: int)
    requires
        0 <= count < octets.len(),
    ensures
        spec_quoted_body(octets) == spec_quoted_body(octets.take(count)) + spec_quoted_octet(
            octets[count],
        ) + spec_quoted_body(octets.skip(count + 1)),
{
    let single = seq![octets[count]];
    assert(octets =~= octets.take(count) + (single + octets.skip(count + 1)));
    lemma_quoted_body_append(octets.take(count), single + octets.skip(count + 1));
    lemma_quoted_body_append(single, octets.skip(count + 1));
    assert(single.drop_last() =~= Seq::<u8>::empty());
    assert(spec_quoted_body(single.drop_last()) =~= Seq::<u8>::empty());
    assert(spec_quoted_body(single) =~= spec_quoted_octet(octets[count]));
}

/// The digits of two runs of octets in hexadecimal, one after the other.
proof fn lemma_hex_body_append(first: Seq<u8>, second: Seq<u8>)
    ensures
        spec_hex_body(first + second) == spec_hex_body(first) + spec_hex_body(second),
    decreases second.len(),
{
    if second.len() == 0 {
        assert(first + second =~= first);
        assert(spec_hex_body(first) + spec_hex_body(second) =~= spec_hex_body(first));
    } else {
        lemma_hex_body_append(first, second.drop_last());
        assert((first + second).drop_last() =~= first + second.drop_last());
        assert((first + second).last() == second.last());
        assert(spec_hex_body(first + second) =~= spec_hex_body(first) + spec_hex_body(second));
    }
}

/// Two hexadecimal digits for every octet.
proof fn lemma_hex_body_len(octets: Seq<u8>)
    ensures
        spec_hex_body(octets).len() == 2 * octets.len(),
    decreases octets.len(),
{
    if octets.len() > 0 {
        lemma_hex_body_len(octets.drop_last());
    }
}

/// A hexadecimal digit is read back as the value it was written for, and is
/// neither whitespace nor the `#` that ends the form.
proof fn lemma_hex_digit_read(value: u8)
    requires
        value < 16,
    ensures
        spec_hex_value(spec_hex_digit(value)) == Some(value),
        !spec_is_whitespace(spec_hex_digit(value)),
        spec_hex_digit(value) != 0x23,
{
}

/// A hexadecimal octet string's digits are read back octet by octet, from
/// the middle on.
proof fn lemma_hex_read_from(input: Seq<u8>, start: int, octets: Seq<u8>, count: int)
    requires
        0 <= start,
        start + spec_write_hexadecimal(octets).len() <= input.len(),
        input.subrange(start, start + spec_write_hexadecimal(octets).len())
            == spec_write_hexadecimal(octets),
        0 <= count <= octets.len(),
    ensures
        spec_hexadecimal_from(input, start, None, start + 1 + 2 * count, octets.take(count), None)
            == Ok::<(Seq<u8>, int), Failure>(
            (octets, start + spec_write_hexadecimal(octets).len()),
        ),
    decreases octets.len() - count,
{
    let written = spec_write_hexadecimal(octets);
    let position = start + 1 + 2 * count;
    lemma_hex_body_len(octets);
    lemma_hex_body_len(octets.take(count));
    if count < octets.len() {
        let octet = octets[count];
        let single = seq![octet];
        assert(octets =~= octets.take(count) + (single + octets.skip(count + 1)));
        lemma_hex_body_append(octets.take(count), single + octets.skip(count + 1));
        lemma_hex_body_append(single, octets.skip(count + 1));
        assert(single.drop_last() =~= Seq::<u8>::empty());
        assert(spec_hex_body(single.drop_last()) =~= Seq::<u8>::empty());
        let high = octet >> 4u8;
        let low = octet & 15u8;
        assert(high < 16 && low < 16 && (high << 4u8) | low == octet) by (bit_vector)
            requires
                high == octet >> 4u8,
                low == octet & 15u8,
        ;
        assert(spec_hex_body(single) =~= seq![spec_hex_digit(high), spec_hex_digit(low)]);
        let from = 1 + 2 * count;
        lemma_found_part(input, start, written, from, from + 2);
        assert(written[from] == spec_hex_digit(high));
        assert(written[from + 1] == spec_hex_digit(low));
        lemma_hex_digit_read(high);
        lemma_hex_digit_read(low);
        assert(octets.take(count).push(octet) =~= octets.take(count + 1));
        lemma_hex_read_from(input, start, octets, count + 1);
        assert(spec_hexadecimal_from(input, start, None, position + 1, octets.take(count), Some(
            high,
        )) == spec_hexadecimal_from(
            input,
            start,
            None,
            position + 2,
            octets.take(count + 1),
            None,
        ));
    } else {
        assert(octets.take(count) =~= octets);
        let from = 1 + 2 * count;
        lemma_found_part(input, start, written, from, from + 1);
        assert(written[from] == 0x23);
    }
}

/// The form an octet string takes in the advanced representation is read back
/// as the octets, by a parser that accepts that representation and
/// hexadecimal, and allows the octet string.
proof fn lemma_advanced_octets_read(parser: Parser, input: Seq<u8>, start: int, octets: Seq<u8>)
    requires
        parser.advanced,
        parser.hexadecimal,
        permits_octets(parser, octets),
        0 <= start,
        start + spec_advanced_octets(octets).len() <= input.len(),
        input.subrange(start, start + spec_advanced_octets(octets).len())
            == spec_advanced_octets(octets),
        ends_token(input, start + spec_advanced_octets(octets).len()),
    ensures
        spec_simple_string(parser, input, start) == Ok::<(Seq<u8>, int), Failure>(
            (octets, start + spec_advanced_octets(octets).len()),
        ),
{
    let written = spec_advanced_octets(octets);
    lemma_found_part(input, start, written, 0, written.len() as int);
    if spec_qualifies_as_token(octets) {
        assert(input[start] == octets[0]);
        lemma_token_end_at(input, start, octets, 0);
        assert(input.subrange(start, start + octets.len()) =~= octets);
        assert(spec_form(parser, input, start) == Ok::<(Seq<u8>, int), Failure>(
            (octets, start + octets.len()),
        ));
    } else if spec_all_text(octets) {
        assert(octets.take(0) =~= Seq::<u8>::empty());
        assert(spec_quoted_body(Seq::<u8>::empty()) =~= Seq::<u8>::empty());
        lemma_quoted_read_from(input, start, octets, 0);
        assert(written == spec_quoted(octets));
        assert(spec_quoted(octets)[0] == 0x22);
        assert(input[start] == 0x22);
    } else {
        assert(octets.take(0) =~= Seq::<u8>::empty());
        lemma_hex_read_from(input, start, octets, 0);
        assert(written == spec_write_hexadecimal(octets));
        assert(spec_write_hexadecimal(octets)[0] == 0x23);
        assert(input[start] == 0x23);
    }
}

/// Where the form an octet string takes in the advanced representation
/// begins: never whitespace, a digit, a bracket or a parenthesis, and it is
/// at least one octet long.
proof fn lemma_advanced_octets_first(octets: Seq<u8>)
    ensures
        spec_advanced_octets(octets).len() >= 1,
        !spec_is_whitespace(spec_advanced_octets(octets)[0]),
        !spec_is_digit(spec_advanced_octets(octets)[0]),
        spec_advanced_octets(octets)[0] != 0x28,
        spec_advanced_octets(octets)[0] != 0x29,
        spec_advanced_octets(octets)[0] != 0x5b,
        spec_advanced_octets(octets)[0] != 0x7b,
        !spec_is_token(spec_advanced_octets(octets).last()) ==> !spec_qualifies_as_token(octets),
{
}

/// An atom's advanced representation is read back as the atom, by a parser
/// that accepts that representation and hexadecimal, and allows the atom.
proof fn lemma_advanced_string(parser: Parser, input: Seq<u8>, start: int, atom: AtomV)
    requires
        parser.advanced,
        parser.hexadecimal,
        permits_atom(parser, atom),
        0 <= start,
        start + spec_advanced_atom(atom).len() <= input.len(),
        input.subrange(start, start + spec_advanced_atom(atom).len()) == spec_advanced_atom(atom),
        ends_token(input, start + spec_advanced_atom(atom).len()),
    ensures
        spec_string(parser, input, start) == Ok::<(AtomV, int), Failure>(
            (atom, start + spec_advanced_atom(atom).len()),
        ),
{
    let written = spec_advanced_atom(atom);
    lemma_found_part(input, start, written, 0, written.len() as int);
    lemma_advanced_octets_first(atom.data);
    match atom.hint {
        Some(hint) => {
            lemma_advanced_octets_first(hint);
            let h = spec_advanced_octets(hint).len() as int;
            let inner = start + 1;
            let close = inner + h;
            let data_start = close + 1;
            assert(written[0] == 0x5b);
            assert(written.subrange(1, 1 + h) =~= spec_advanced_octets(hint));
            lemma_found_part(input, start, written, 1, 1 + h);
            assert(written[1 + h] == 0x5d);
            assert(input[close] == 0x5d);
            lemma_advanced_octets_read(parser, input, inner, hint);
            assert(written.subrange(2 + h, written.len() as int) =~= spec_advanced_octets(atom.data));
            lemma_found_part(input, start, written, 2 + h, written.len() as int);
            assert(input[data_start] == spec_advanced_octets(atom.data)[0]);
            lemma_advanced_octets_read(parser, input, data_start, atom.data);
            assert(spec_skip_whitespace(parser, input, inner) == inner);
            assert(spec_skip_whitespace(parser, input, close) == close);
            assert(spec_skip_whitespace(parser, input, close + 1) == data_start);
            assert(spec_display_hint(parser, input, start) == Ok::<(Seq<u8>, int), Failure>(
                (hint, data_start),
            ));
        },
        None => {
            lemma_advanced_octets_read(parser, input, start, atom.data);
        },
    }
}

/// The representations of two runs of elements, one after the other, a space
/// between them where both have elements.
proof fn lemma_advanced_items_append(first: Seq<SexpV>, second: Seq<SexpV>)
    ensures
        spec_advanced_items(first + second) == spec_advanced_items(first) + (if first.len() > 0
            && second.len() > 0 {
            seq![0x20u8]
        } else {
            Seq::<u8>::empty()
        }) + spec_advanced_items(second),
    decreases second.len(),
{
    let both = first + second;
    if second.len() == 0 {
        assert(both =~= first);
        assert(spec_advanced_items(second) =~= Seq::<u8>::empty());
        assert(spec_advanced_items(first) + Seq::<u8>::empty() + spec_advanced_items(second)
            =~= spec_advanced_items(first));
    } else if second.len() == 1 {
        assert(both.drop_last() =~= first);
        assert(both.last() == second.last());
        assert(spec_advanced_items(second) == spec_advanced(second.last()));
        if first.len() == 0 {
            assert(both =~= second);
            assert(spec_advanced_items(first) =~= Seq::<u8>::empty());
            assert(spec_advanced_items(first) + Seq::<u8>::empty() + spec_advanced_items(second)
                =~= spec_advanced_items(second));
        } else {
            assert(spec_advanced_items(both) =~= spec_advanced_items(first) + seq![0x20u8]
                + spec_advanced_items(second));
        }
    } else {
        lemma_advanced_items_append(first, second.drop_last());
        assert(both.drop_last() =~= first + second.drop_last());
        assert(both.last() == second.last());
        let sep: Seq<u8> = if first.len() > 0 {
            seq![0x20u8]
        } else {
            Seq::<u8>::empty()
        };
        assert(spec_advanced_items(both) =~= spec_advanced_items(first) + sep
            + spec_advanced_items(second));
    }
}

/// Where an advanced representation begins: an opening parenthesis for a
/// list and nothing of the kind for an atom, never whitespace, a closing
/// parenthesis or a brace.
proof fn lemma_advanced_first(s: SexpV)
    ensures
        spec_advanced(s).len() >= 1,
        s is List <==> spec_advanced(s)[0] == 0x28,
        !spec_is_whitespace(spec_advanced(s)[0]),
        spec_advanced(s)[0] != 0x29,
        spec_advanced(s)[0] != 0x7b,
{
    if let SexpV::Atom(atom) = s {
        lemma_advanced_octets_first(atom.data);
        if let Some(hint) = atom.hint {
            lemma_advanced_octets_first(hint);
        }
    }
}

/// Whitespace before the next construct is passed over.
proof fn lemma_run_skip(parser: Parser, input: Seq<u8>, open: Seq<OpenList>, offset: int)
    requires
        parser.advanced,
        0 <= offset < input.len(),
        spec_is_whitespace(input[offset]),
    ensures
        spec_run(parser, input, open, offset) == spec_run(parser, input, open, offset + 1),
{
    assert(spec_skip_whitespace(parser, input, offset) == spec_skip_whitespace(
        parser,
        input,
        offset + 1,
    ));
}

/// Reading the advanced representation of an S-expression the parser allows,
/// with lists open that leave room for its nesting, and nothing after it that
/// could continue a token, completes the S-expression just past its
/// representation.
pub proof fn lemma_run_advanced(
    parser: Parser,
    input: Seq<u8>,
    open: Seq<OpenList>,
    offset: int,
    s: SexpV,
)
    requires
        parser.advanced,
        parser.hexadecimal,
        0 <= offset,
        offset + spec_advanced(s).len() <= input.len(),
        input.subrange(offset, offset + spec_advanced(s).len()) == spec_advanced(s),
        ends_token(input, offset + spec_advanced(s).len()),
        permits(parser, s),
        open.len() + spec_depth(s) <= parser.max_depth,
    ensures
        spec_run(parser, input, open, offset) == resume(
            parser,
            input,
            open,
            s,
            offset + spec_advanced(s).len(),
        ),
    decreases s, 0int,
{
    lemma_advanced_first(s);
    lemma_found_part(input, offset, spec_advanced(s), 0, 1);
    match s {
        SexpV::Atom(atom) => {
            lemma_advanced_string(parser, input, offset, atom);
        },
        SexpV::List(items) => {
            assert(items.take(0) =~= Seq::<SexpV>::empty());
            assert(spec_advanced_items(Seq::<SexpV>::empty()) =~= Seq::<u8>::empty());
            lemma_run_advanced_items(parser, input, open, offset, items, 0);
        },
    }
}

/// Reading the rest of a list's advanced representation, its first `count`
/// elements read.
#[verifier::rlimit(40)]
proof fn lemma_run_advanced_items(
    parser: Parser,
    input: Seq<u8>,
    open: Seq<OpenList>,
    start: int,
    items: Seq<SexpV>,
    count: int,
)
    requires
        parser.advanced,
        parser.hexadecimal,
        0 <= start,
        0 <= count <= items.len(),
        start + spec_advanced(SexpV::List(items)).len() <= input.len(),
        input.subrange(start, start + spec_advanced(SexpV::List(items)).len()) == spec_advanced(
            SexpV::List(items),
        ),
        permits(parser, SexpV::List(items)),
        open.len() + spec_depth(SexpV::List(items)) <= parser.max_depth,
    ensures
        spec_run(
            parser,
            input,
            open.push((start, items.take(count))),
            start + 1 + spec_advanced_items(items.take(count)).len(),
        ) == resume(
            parser,
            input,
            open,
            SexpV::List(items),
            start + spec_advanced(SexpV::List(items)).len(),
        ),
    decreases items, items.len() - count,
{
    let whole = spec_advanced(SexpV::List(items));
    let before = spec_advanced_items(items.take(count));
    let offset = start + 1 + before.len();
    let pushed = open.push((start, items.take(count)));
    lemma_advanced_items_append(items.take(count), items.skip(count));
    assert(items.take(count) + items.skip(count) =~= items);
    if count < items.len() {
        let item = items[count];
        lemma_item(parser, items, count);
        assert(items.skip(count) =~= seq![item] + items.skip(count + 1));
        crate::encode::advanced::lemma_advanced_items_front(item, items.skip(count + 1));
        let gap: int = if count > 0 {
            1
        } else {
            0
        };
        let item_start = offset + gap;
        let item_end = item_start + spec_advanced(item).len();
        let after: Seq<u8> = if count + 1 < items.len() {
            seq![0x20u8] + spec_advanced_items(items.skip(count + 1))
        } else {
            Seq::<u8>::empty()
        };
        assert(whole =~= seq![0x28u8] + before + (if count > 0 {
            seq![0x20u8]
        } else {
            Seq::<u8>::empty()
        }) + spec_advanced(item) + after + seq![0x29u8]);
        assert(whole.subrange(item_start - start, item_end - start) =~= spec_advanced(item));
        lemma_found_part(input, start, whole, item_start - start, item_end - start);
        lemma_found_part(input, start, whole, item_end - start, item_end - start + 1);
        assert(input[item_end] == whole[item_end - start]);
        assert(whole[item_end - start] == 0x20 || whole[item_end - start] == 0x29);
        if count > 0 {
            assert(whole[offset - start] == 0x20);
            lemma_found_part(input, start, whole, offset - start, offset - start + 1);
            assert(input[offset] == 0x20);
            lemma_run_skip(parser, input, pushed, offset);
        }
        lemma_run_advanced(parser, input, pushed, item_start, item);
        assert(pushed.drop_last() =~= open);
        assert(pushed.last() == (start, items.take(count)));
        assert(items.take(count).push(item) =~= items.take(count + 1));
        assert(items.take(count + 1).drop_last() =~= items.take(count));
        lemma_advanced_items_append(items.take(count), seq![item]);
        assert(seq![item].drop_last().len() == 0);
        assert(spec_advanced_items(seq![item]) == spec_advanced(item));
        assert(items.take(count) + seq![item] =~= items.take(count + 1));
        assert(spec_advanced_items(items.take(count + 1)).len() == before.len() + gap
            + spec_advanced(item).len());
        lemma_run_advanced_items(parser, input, open, start, items, count + 1);
    } else {
        assert(items.take(count) =~= items);
        assert(items.skip(count) =~= Seq::<SexpV>::empty());
        lemma_close_advanced(parser, input, open, start, items);
    }
}

/// Reading the parenthesis that closes a list's advanced representation,
/// every element read.
proof fn lemma_close_advanced(
    parser: Parser,
    input: Seq<u8>,
    open: Seq<OpenList>,
    start: int,
    items: Seq<SexpV>,
)
    requires
        0 <= start,
        start + spec_advanced(SexpV::List(items)).len() <= input.len(),
        input.subrange(start, start + spec_advanced(SexpV::List(items)).len()) == spec_advanced(
            SexpV::List(items),
        ),
        permits(parser, SexpV::List(items)),
    ensures
        spec_run(
            parser,
            input,
            open.push((start, items)),
            start + 1 + spec_advanced_items(items).len(),
        ) == resume(
            parser,
            input,
            open,
            SexpV::List(items),
            start + spec_advanced(SexpV::List(items)).len(),
        ),
{
    let whole = spec_advanced(SexpV::List(items));
    let offset = start + 1 + spec_advanced_items(items).len();
    lemma_found_part(input, start, whole, offset - start, offset - start + 1);
    assert(whole[offset - start] == 0x29);
    assert(input[offset] == 0x29);
    assert(spec_skip_whitespace(parser, input, offset) == offset);
    assert(spec_check_list(parser, items, start) == Ok::<(), Failure>(()));
    let pushed = open.push((start, items));
    assert(pushed.drop_last() =~= open);
    assert(pushed.last() == (start, items));
}

/// The advanced representation of an S-expression that a parser allows, and
/// that fits within its limits on nesting and on input, is read back as the
/// S-expression by a parser that accepts that representation and hexadecimal
/// octet strings.
pub proof fn lemma_parse_advanced(parser: Parser, s: SexpV)
    requires
        parser.advanced,
        parser.hexadecimal,
        permits(parser, s),
        spec_depth(s) <= parser.max_depth,
        spec_advanced(s).len() <= parser.max_input_len,
    ensures
        spec_parse(parser, spec_advanced(s)) == Ok::<SexpV, Failure>(s),
{
    let input = spec_advanced(s);
    lemma_advanced_first(s);
    assert(input.subrange(0, input.len() as int) =~= input);
    lemma_run_advanced(parser, input, Seq::empty(), 0, s);
    assert(spec_skip_whitespace(parser, input, 0) == 0);
    assert(spec_sexp(parser, input, 0) == spec_value(parser, input, 0));
    lemma_skip_whitespace(parser, input, input.len() as int);
}

} // verus!
