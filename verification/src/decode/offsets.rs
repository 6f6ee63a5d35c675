//! Where a failure is reported.
//!
//! An error's offset is where the offending construct begins, counted in
//! octets from the start of the input, or the end of the input where the input
//! ended too soon. Either way it lies within the input or just past its last
//! octet, whatever the input and whatever the parser.

use vstd::prelude::*;

use crate::decode::parser::{spec_within_transport, Parser};
use crate::decode::reader::octet_string::{
    lemma_decimal_progress, lemma_decode_offset, spec_after_length, spec_base64_string,
    spec_decimal_from, spec_form, spec_hexadecimal_from, spec_length, spec_simple_string,
    spec_verbatim,
};
use crate::decode::reader::quoted::{
    lemma_escape_progress, optional_octet, spec_escape, spec_quoted_from,
};
use crate::decode::reader::{
    lemma_find, lemma_skip_whitespace, lemma_string_progress, spec_display_hint, spec_find,
    spec_parse, spec_parse_prefix, spec_run, spec_sexp, spec_skip_whitespace, spec_string,
    spec_transport, OpenList, Outcome,
};
use crate::types::sexp::SexpV;

verus! {

/// A failure, where that is what came, is reported at an octet of the input
/// or just past its last one.
pub open spec fn reported_within<T>(outcome: Outcome<T>, input: Seq<u8>) -> bool {
    outcome matches Err(failure) ==> 0 <= failure.1 <= input.len()
}

/// A length reports its failures where it begins.
proof fn lemma_decimal_within(input: Seq<u8>, start: int, position: int, value: int, digits: int)
    requires
        0 <= start <= input.len(),
    ensures
        reported_within(spec_decimal_from(input, start, position, value, digits), input),
    decreases input.len() - position,
{
    if 0 <= position < input.len() {
        lemma_decimal_within(input, start, position + 1, value * 10 + (input[position] - 0x30), digits + 1);
    }
}

/// A hexadecimal octet string reports its failures where it begins, at the
/// octet that is no digit, or at the end.
proof fn lemma_hexadecimal_within(
    input: Seq<u8>,
    start: int,
    declared: Option<int>,
    position: int,
    octets: Seq<u8>,
    high: Option<u8>,
)
    requires
        0 <= start <= input.len(),
    ensures
        reported_within(spec_hexadecimal_from(input, start, declared, position, octets, high), input),
    decreases input.len() - position,
{
    if 0 <= position < input.len() {
        let octet = input[position];
        if crate::syntax::spec_is_whitespace(octet) {
            lemma_hexadecimal_within(input, start, declared, position + 1, octets, high);
        } else if let Some(value) = crate::syntax::spec_hex_value(octet) {
            match high {
                Some(first) => lemma_hexadecimal_within(
                    input,
                    start,
                    declared,
                    position + 1,
                    octets.push((first << 4u8) | value),
                    None,
                ),
                None => lemma_hexadecimal_within(
                    input,
                    start,
                    declared,
                    position + 1,
                    octets,
                    Some(value),
                ),
            }
        }
    }
}

/// A quoted string reports its failures where it begins, at the escape or
/// the octet that is wrong, or at the end.
proof fn lemma_quoted_within(
    input: Seq<u8>,
    start: int,
    declared: Option<int>,
    position: int,
    octets: Seq<u8>,
)
    requires
        0 <= start <= input.len(),
    ensures
        reported_within(spec_quoted_from(input, start, declared, position, octets), input),
    decreases input.len() - position,
{
    if 0 <= position < input.len() {
        let octet = input[position];
        if octet == 0x5c {
            lemma_escape_progress(input, position + 1);
            if let Ok((escaped, next)) = spec_escape(input, position + 1) {
                lemma_quoted_within(input, start, declared, next, octets + optional_octet(escaped));
            }
        } else if 0x20 <= octet <= 0x7e && octet != 0x22 {
            lemma_quoted_within(input, start, declared, position + 1, octets.push(octet));
        }
    }
}

/// A base-64 octet string reports its failures where it begins, at the
/// offending character, or at the end.
proof fn lemma_base64_within(input: Seq<u8>, start: int, declared: Option<int>, position: int)
    requires
        0 <= start <= input.len(),
        0 <= position,
    ensures
        reported_within(spec_base64_string(input, start, declared, position), input),
{
    let from = position + 1;
    lemma_find(input, from, 0x7c);
    if let Some(end) = spec_find(input, from, 0x7c) {
        lemma_decode_offset(input.subrange(from, end));
    }
}

/// The form that follows a length reports its failures within the input.
proof fn lemma_after_length_within(parser: Parser, input: Seq<u8>, start: int, len: int, after: int)
    requires
        0 <= start <= after,
    ensures
        reported_within(spec_after_length(parser, input, start, len, after), input),
{
    if 0 <= after < input.len() {
        lemma_quoted_within(input, start, Some(len), after + 1, Seq::empty());
        lemma_hexadecimal_within(input, start, Some(len), after + 1, Seq::empty(), None);
        lemma_base64_within(input, start, Some(len), after);
    }
}

/// One octet string reports its failures within the input.
proof fn lemma_simple_string_within(parser: Parser, input: Seq<u8>, position: int)
    requires
        0 <= position <= input.len(),
    ensures
        reported_within(spec_simple_string(parser, input, position), input),
{
    if position < input.len() {
        lemma_decimal_within(input, position, position, 0, 0);
        lemma_decimal_progress(input, position, position, 0, 0);
        if let Ok((len, after)) = spec_length(input, position) {
            lemma_after_length_within(parser, input, position, len, after);
        }
        lemma_quoted_within(input, position, None, position + 1, Seq::empty());
        lemma_hexadecimal_within(input, position, None, position + 1, Seq::empty(), None);
        lemma_base64_within(input, position, None, position);
    }
    assert(reported_within(spec_form(parser, input, position), input));
}

/// An octet string with its display hint reports its failures within the
/// input.
proof fn lemma_string_within(parser: Parser, input: Seq<u8>, position: int)
    requires
        0 <= position <= input.len(),
    ensures
        reported_within(spec_string(parser, input, position), input),
{
    if 0 <= position < input.len() && input[position] == 0x5b {
        lemma_skip_whitespace(parser, input, position + 1);
        let inner = spec_skip_whitespace(parser, input, position + 1);
        lemma_simple_string_within(parser, input, inner);
        crate::decode::reader::octet_string::lemma_simple_string_progress(parser, input, inner);
        if let Ok((hint, after)) = spec_simple_string(parser, input, inner) {
            lemma_skip_whitespace(parser, input, after);
            let close = spec_skip_whitespace(parser, input, after);
            lemma_skip_whitespace(parser, input, close + 1);
        }
        assert(reported_within(spec_display_hint(parser, input, position), input));
        if let Ok((_, after_hint)) = spec_display_hint(parser, input, position) {
            lemma_simple_string_within(parser, input, after_hint);
        }
    } else {
        lemma_simple_string_within(parser, input, position);
    }
}

/// The lists still open were opened within the input.
pub open spec fn opened_within(open: Seq<OpenList>, input: Seq<u8>) -> bool {
    forall|i: int| 0 <= i < open.len() ==> 0 <= #[trigger] open[i].0 < input.len()
}

/// Reading on from `offset`, with lists open that were opened within the
/// input, reports its failures within the input, and ends within it.
proof fn lemma_run_within(parser: Parser, input: Seq<u8>, open: Seq<OpenList>, offset: int)
    requires
        0 <= offset <= input.len(),
        opened_within(open, input),
    ensures
        reported_within(spec_run(parser, input, open, offset), input),
        spec_run(parser, input, open, offset) matches Ok((_, next)) ==> 0 <= next <= input.len(),
    decreases input.len() - offset,
{
    lemma_skip_whitespace(parser, input, offset);
    let at = spec_skip_whitespace(parser, input, offset);
    if 0 <= at < input.len() {
        if input[at] == 0x28 {
            if open.len() < parser.max_depth {
                let pushed = open.push((at, Seq::<SexpV>::empty()));
                assert forall|i: int| 0 <= i < pushed.len() implies 0 <= #[trigger] pushed[i].0
                    < input.len() by {
                    if i < open.len() {
                        assert(pushed[i] == open[i]);
                    }
                }
                lemma_run_within(parser, input, pushed, at + 1);
            }
        } else if input[at] == 0x29 {
            if open.len() > 0 {
                assert(open[open.len() - 1] == open.last());
                let rest = open.drop_last();
                if rest.len() > 0 {
                    let value = SexpV::List(open.last().1);
                    let parent = rest.last();
                    let next_open = rest.drop_last().push((parent.0, parent.1.push(value)));
                    assert forall|i: int| 0 <= i < next_open.len() implies 0
                        <= #[trigger] next_open[i].0 < input.len() by {
                        assert(open[i].0 == next_open[i].0);
                    }
                    lemma_run_within(parser, input, next_open, at + 1);
                }
            }
        } else {
            lemma_string_within(parser, input, at);
            lemma_string_progress(parser, input, at);
            if let Ok((atom, next)) = spec_string(parser, input, at) {
                if open.len() > 0 {
                    let value = SexpV::Atom(atom);
                    let parent = open.last();
                    let next_open = open.drop_last().push((parent.0, parent.1.push(value)));
                    assert forall|i: int| 0 <= i < next_open.len() implies 0
                        <= #[trigger] next_open[i].0 < input.len() by {
                        assert(open[i].0 == next_open[i].0);
                    }
                    lemma_run_within(parser, input, next_open, next);
                }
            }
        }
    }
}

/// Reading one S-expression from `offset` reports its failures within the
/// input, and ends within it.
pub proof fn lemma_sexp_within(parser: Parser, input: Seq<u8>, offset: int)
    requires
        0 <= offset <= input.len(),
    ensures
        reported_within(spec_sexp(parser, input, offset), input),
        spec_sexp(parser, input, offset) matches Ok((_, next)) ==> 0 <= next <= input.len(),
    decreases (if parser.transport {
        1int
    } else {
        0int
    }), 1int,
{
    lemma_skip_whitespace(parser, input, offset);
    let at = spec_skip_whitespace(parser, input, offset);
    if 0 <= at < input.len() && input[at] == 0x7b {
        if parser.transport {
            let from = at + 1;
            lemma_find(input, from, 0x7d);
            if let Some(end) = spec_find(input, from, 0x7d) {
                lemma_decode_offset(input.subrange(from, end));
            }
        }
        assert(reported_within(spec_transport(parser, input, at), input));
    } else {
        assert(opened_within(Seq::<OpenList>::empty(), input));
        lemma_run_within(parser, input, Seq::empty(), at);
    }
}

/// Wherever a parse fails, the offset it reports lies within the input or
/// just past its last octet, whatever the input and whatever the parser; and
/// the same holds of reading one S-expression from the start of the input.
pub proof fn lemma_reported_within(parser: Parser, input: Seq<u8>)
    ensures
        spec_parse(parser, input) matches Err(failure) ==> 0 <= failure.1 <= input.len(),
        reported_within(spec_parse_prefix(parser, input), input),
{
    if input.len() <= parser.max_input_len {
        lemma_sexp_within(parser, input, 0);
        if let Ok((_, next)) = spec_sexp(parser, input, 0) {
            lemma_skip_whitespace(parser, input, next);
        }
    }
}

} // verus!
