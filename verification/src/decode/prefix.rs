//! Reading a prefix on its own.
//!
//! Reading one S-expression from the start of an input looks at no octet past
//! where the S-expression ends, except to see that a token ends there. So the
//! octets a prefix read took, taken alone, read as the same S-expression, and
//! a stream of S-expressions can be read one prefix after another.

use vstd::prelude::*;

use crate::base64::spec_decode;
use crate::decode::error::Failure;
use crate::decode::parser::Parser;
use crate::decode::reader::octet_string::{
    lemma_decimal_progress, lemma_token_end, spec_after_length, spec_base64_string,
    spec_decimal_from, spec_form, spec_hexadecimal_from, spec_length, spec_simple_string,
    spec_token, spec_token_end, spec_verbatim,
};
use crate::decode::reader::quoted::{
    lemma_escape_progress, optional_octet, spec_escape, spec_quoted_from,
};
use crate::decode::reader::{
    lemma_skip_whitespace, spec_display_hint, spec_find, spec_parse, spec_parse_prefix, spec_run,
    spec_sexp, spec_skip_whitespace, spec_string, spec_transport, OpenList,
};
use crate::syntax::{spec_hex_value, spec_is_digit, spec_is_token, spec_is_whitespace};
use crate::types::sexp::SexpV;

verus! {

/// Passing over whitespace that ends within the first `m` octets ends in the
/// same place when the input is cut after them.
proof fn lemma_skip_prefix(parser: Parser, input: Seq<u8>, m: int, offset: int)
    requires
        0 <= offset,
        m <= input.len(),
        spec_skip_whitespace(parser, input, offset) <= m,
    ensures
        spec_skip_whitespace(parser, input.take(m), offset) == spec_skip_whitespace(
            parser,
            input,
            offset,
        ),
    decreases input.len() - offset,
{
    lemma_skip_whitespace(parser, input, offset);
    if parser.advanced && 0 <= offset < input.len() && spec_is_whitespace(input[offset]) {
        lemma_skip_whitespace(parser, input, offset + 1);
        lemma_skip_prefix(parser, input, m, offset + 1);
    }
}

/// An octet found within the first `m` octets is found there when the input
/// is cut after them.
proof fn lemma_find_prefix(input: Seq<u8>, m: int, from: int, octet: u8)
    requires
        0 <= m <= input.len(),
    ensures
        spec_find(input, from, octet) matches Some(at) && at < m ==> spec_find(
            input.take(m),
            from,
            octet,
        ) == spec_find(input, from, octet),
    decreases input.len() - from,
{
    if 0 <= from < input.len() && input[from] != octet {
        lemma_find_prefix(input, m, from + 1, octet);
    }
}

/// A length read within the first `m` octets reads the same when the input
/// is cut after them.
proof fn lemma_decimal_prefix(
    input: Seq<u8>,
    m: int,
    start: int,
    position: int,
    value: int,
    digits: int,
)
    requires
        0 <= m <= input.len(),
        0 <= position,
    ensures
        spec_decimal_from(input, start, position, value, digits) matches Ok((_, next)) ==> position
            <= next && (next <= m ==> spec_decimal_from(input.take(m), start, position, value, digits)
            == spec_decimal_from(input, start, position, value, digits)),
    decreases input.len() - position,
{
    if position < input.len() && spec_is_digit(input[position]) {
        lemma_decimal_prefix(
            input,
            m,
            start,
            position + 1,
            value * 10 + (input[position] - 0x30),
            digits + 1,
        );
    }
}

/// A hexadecimal octet string read within the first `m` octets reads the same
/// when the input is cut after them.
proof fn lemma_hexadecimal_prefix(
    input: Seq<u8>,
    m: int,
    start: int,
    declared: Option<int>,
    position: int,
    octets: Seq<u8>,
    high: Option<u8>,
)
    requires
        0 <= m <= input.len(),
        0 <= position,
    ensures
        spec_hexadecimal_from(input, start, declared, position, octets, high) matches Ok((_, next))
            ==> position < next && (next <= m ==> spec_hexadecimal_from(
            input.take(m),
            start,
            declared,
            position,
            octets,
            high,
        ) == spec_hexadecimal_from(input, start, declared, position, octets, high)),
    decreases input.len() - position,
{
    if position < input.len() {
        let octet = input[position];
        if octet != 0x23 {
            if spec_is_whitespace(octet) {
                lemma_hexadecimal_prefix(input, m, start, declared, position + 1, octets, high);
            } else if let Some(value) = spec_hex_value(octet) {
                match high {
                    Some(first) => lemma_hexadecimal_prefix(
                        input,
                        m,
                        start,
                        declared,
                        position + 1,
                        octets.push((first << 4u8) | value),
                        None,
                    ),
                    None => lemma_hexadecimal_prefix(
                        input,
                        m,
                        start,
                        declared,
                        position + 1,
                        octets,
                        Some(value),
                    ),
                }
            }
        }
    }
}

/// An escape read within the first `m` octets reads the same when the input
/// is cut after them.
proof fn lemma_escape_prefix(input: Seq<u8>, m: int, at: int)
    requires
        0 <= m <= input.len(),
        0 <= at,
    ensures
        spec_escape(input, at) matches Ok((_, next)) ==> at < next && (next <= m ==> spec_escape(
            input.take(m),
            at,
        ) == spec_escape(input, at)),
{
    lemma_escape_progress(input, at);
    let t = input.take(m);
    if let Ok((_, next)) = spec_escape(input, at) {
        if next <= m {
            assert(t[at] == input[at]);
            if at + 1 < m {
                assert(t[at + 1] == input[at + 1]);
            }
            if at + 2 < m {
                assert(t[at + 2] == input[at + 2]);
            }
        }
    }
}

/// A quoted string read within the first `m` octets reads the same when the
/// input is cut after them.
proof fn lemma_quoted_prefix(
    input: Seq<u8>,
    m: int,
    start: int,
    declared: Option<int>,
    position: int,
    octets: Seq<u8>,
)
    requires
        0 <= m <= input.len(),
        0 <= position,
    ensures
        spec_quoted_from(input, start, declared, position, octets) matches Ok((_, next))
            ==> position < next && (next <= m ==> spec_quoted_from(
            input.take(m),
            start,
            declared,
            position,
            octets,
        ) == spec_quoted_from(input, start, declared, position, octets)),
    decreases input.len() - position,
{
    if position < input.len() {
        let octet = input[position];
        if octet == 0x5c {
            lemma_escape_prefix(input, m, position + 1);
            if let Ok((escaped, next)) = spec_escape(input, position + 1) {
                lemma_quoted_prefix(input, m, start, declared, next, octets + optional_octet(escaped));
            }
        } else if 0x20 <= octet <= 0x7e && octet != 0x22 {
            lemma_quoted_prefix(input, m, start, declared, position + 1, octets.push(octet));
        }
    }
}

/// A base-64 octet string read within the first `m` octets reads the same
/// when the input is cut after them.
proof fn lemma_base64_prefix(input: Seq<u8>, m: int, start: int, declared: Option<int>, position: int)
    requires
        0 <= m <= input.len(),
        0 <= position,
    ensures
        spec_base64_string(input, start, declared, position) matches Ok((_, next)) ==> position
            < next && (next <= m ==> spec_base64_string(input.take(m), start, declared, position)
            == spec_base64_string(input, start, declared, position)),
{
    let from = position + 1;
    crate::decode::reader::lemma_find(input, from, 0x7c);
    lemma_find_prefix(input, m, from, 0x7c);
    if let Some(end) = spec_find(input, from, 0x7c) {
        if end < m {
            assert(input.take(m).subrange(from, end) =~= input.subrange(from, end));
        }
    }
}

/// A token that ends within the first `m` octets ends in the same place when
/// the input is cut after them.
proof fn lemma_token_end_prefix(input: Seq<u8>, m: int, position: int)
    requires
        0 <= position <= input.len(),
        0 <= m <= input.len(),
    ensures
        position <= spec_token_end(input, position),
        spec_token_end(input, position) <= m ==> spec_token_end(input.take(m), position)
            == spec_token_end(input, position),
    decreases input.len() - position,
{
    lemma_token_end(input, position);
    if position < input.len() && spec_is_token(input[position]) {
        lemma_token_end_prefix(input, m, position + 1);
    }
}

/// The form that follows a length, read within the first `m` octets, reads
/// the same when the input is cut after them.
proof fn lemma_after_length_prefix(
    parser: Parser,
    input: Seq<u8>,
    m: int,
    start: int,
    len: int,
    after: int,
)
    requires
        0 <= m <= input.len(),
        0 <= after,
        0 <= len,
    ensures
        spec_after_length(parser, input, start, len, after) matches Ok((_, next)) ==> after < next
            && (next <= m ==> spec_after_length(parser, input.take(m), start, len, after)
            == spec_after_length(parser, input, start, len, after)),
{
    if after < input.len() {
        lemma_quoted_prefix(input, m, start, Some(len), after + 1, Seq::empty());
        lemma_hexadecimal_prefix(input, m, start, Some(len), after + 1, Seq::empty(), None);
        lemma_base64_prefix(input, m, start, Some(len), after);
        if input[after] == 0x3a && after + 1 + len <= m {
            assert(input.take(m).subrange(after + 1, after + 1 + len) =~= input.subrange(
                after + 1,
                after + 1 + len,
            ));
            assert(spec_verbatim(input.take(m), after + 1, len) == spec_verbatim(
                input,
                after + 1,
                len,
            ));
        }
    }
}

/// One octet string read within the first `m` octets reads the same when the
/// input is cut after them.
proof fn lemma_simple_string_prefix(parser: Parser, input: Seq<u8>, m: int, position: int)
    requires
        0 <= m <= input.len(),
        0 <= position,
    ensures
        spec_simple_string(parser, input, position) matches Ok((_, next)) ==> position < next && (
        next <= m ==> spec_simple_string(parser, input.take(m), position) == spec_simple_string(
            parser,
            input,
            position,
        )),
{
    if position < input.len() {
        let octet = input[position];
        lemma_decimal_prefix(input, m, position, position, 0, 0);
        lemma_decimal_progress(input, position, position, 0, 0);
        if let Ok((len, after)) = spec_length(input, position) {
            lemma_after_length_prefix(parser, input, m, position, len, after);
        }
        lemma_quoted_prefix(input, m, position, None, position + 1, Seq::empty());
        lemma_hexadecimal_prefix(input, m, position, None, position + 1, Seq::empty(), None);
        lemma_base64_prefix(input, m, position, None, position);
        lemma_token_end_prefix(input, m, position);
        if crate::syntax::spec_is_token_start(octet) {
            lemma_token_end_prefix(input, m, position + 1);
            let end = spec_token_end(input, position);
            if end <= m {
                assert(input.take(m).subrange(position, end) =~= input.subrange(position, end));
            }
        }
        if let Ok((_, next)) = spec_form(parser, input, position) {
            if next <= m {
                assert(input.take(m)[position] == input[position]);
                assert(spec_form(parser, input.take(m), position) == spec_form(
                    parser,
                    input,
                    position,
                ));
            }
        }
    }
}

/// An octet string with its display hint, read within the first `m` octets,
/// reads the same when the input is cut after them.
proof fn lemma_string_prefix(parser: Parser, input: Seq<u8>, m: int, position: int)
    requires
        0 <= m <= input.len(),
        0 <= position,
    ensures
        spec_string(parser, input, position) matches Ok((_, next)) ==> position < next && (next
            <= m ==> spec_string(parser, input.take(m), position) == spec_string(
            parser,
            input,
            position,
        )),
{
    let t = input.take(m);
    if 0 <= position < input.len() && input[position] == 0x5b {
        lemma_skip_whitespace(parser, input, position + 1);
        let inner = spec_skip_whitespace(parser, input, position + 1);
        lemma_simple_string_prefix(parser, input, m, inner);
        if let Ok((hint, after)) = spec_simple_string(parser, input, inner) {
            lemma_skip_whitespace(parser, input, after);
            let close = spec_skip_whitespace(parser, input, after);
            lemma_skip_whitespace(parser, input, close + 1);
            if let Ok((_, after_hint)) = spec_display_hint(parser, input, position) {
                lemma_simple_string_prefix(parser, input, m, after_hint);
                if let Ok((_, next)) = spec_string(parser, input, position) {
                    if next <= m {
                        assert(t[position] == input[position]);
                        lemma_skip_prefix(parser, input, m, position + 1);
                        lemma_skip_prefix(parser, input, m, after);
                        lemma_skip_prefix(parser, input, m, close + 1);
                        assert(t[close] == input[close]);
                        assert(spec_display_hint(parser, t, position) == spec_display_hint(
                            parser,
                            input,
                            position,
                        ));
                        if after_hint < m {
                            assert(t[after_hint] == input[after_hint]);
                        }
                    }
                }
            }
        }
    } else {
        lemma_simple_string_prefix(parser, input, m, position);
        if let Ok((_, next)) = spec_string(parser, input, position) {
            if next <= m && position < m {
                assert(t[position] == input[position]);
            }
        }
    }
}

/// What reading on from `offset` states of a cut input.
pub open spec fn run_reads_alike(
    parser: Parser,
    input: Seq<u8>,
    m: int,
    open: Seq<OpenList>,
    offset: int,
) -> bool {
    spec_run(parser, input, open, offset) matches Ok((_, next)) ==> offset < next && (next <= m
        ==> spec_run(parser, input.take(m), open, offset) == spec_run(parser, input, open, offset))
}

/// Reading on from `offset`, where it completes within the first `m` octets,
/// reads the same when the input is cut after them.
proof fn lemma_run_prefix(parser: Parser, input: Seq<u8>, m: int, open: Seq<OpenList>, offset: int)
    requires
        0 <= m <= input.len(),
        0 <= offset,
    ensures
        run_reads_alike(parser, input, m, open, offset),
    decreases input.len() - offset, 1int,
{
    lemma_skip_whitespace(parser, input, offset);
    let at = spec_skip_whitespace(parser, input, offset);
    if 0 <= at < input.len() {
        if input[at] == 0x28 {
            lemma_run_open_prefix(parser, input, m, open, offset, at);
        } else if input[at] == 0x29 {
            lemma_run_close_prefix(parser, input, m, open, offset, at);
        } else {
            lemma_run_string_prefix(parser, input, m, open, offset, at);
        }
    }
}

/// Reading on from an opening parenthesis.
proof fn lemma_run_open_prefix(
    parser: Parser,
    input: Seq<u8>,
    m: int,
    open: Seq<OpenList>,
    offset: int,
    at: int,
)
    requires
        0 <= m <= input.len(),
        0 <= offset <= at < input.len(),
        at == spec_skip_whitespace(parser, input, offset),
        input[at] == 0x28,
    ensures
        run_reads_alike(parser, input, m, open, offset),
    decreases input.len() - at, 0int,
{
    if open.len() < parser.max_depth {
        let pushed = open.push((at, Seq::<SexpV>::empty()));
        lemma_run_prefix(parser, input, m, pushed, at + 1);
        if let Ok((_, next)) = spec_run(parser, input, open, offset) {
            if next <= m {
                lemma_skip_prefix(parser, input, m, offset);
                assert(input.take(m)[at] == input[at]);
            }
        }
    }
}

/// Reading on from a closing parenthesis.
proof fn lemma_run_close_prefix(
    parser: Parser,
    input: Seq<u8>,
    m: int,
    open: Seq<OpenList>,
    offset: int,
    at: int,
)
    requires
        0 <= m <= input.len(),
        0 <= offset <= at < input.len(),
        at == spec_skip_whitespace(parser, input, offset),
        input[at] == 0x29,
    ensures
        run_reads_alike(parser, input, m, open, offset),
    decreases input.len() - at, 0int,
{
    if open.len() > 0 {
        let rest = open.drop_last();
        if rest.len() > 0 {
            let value = SexpV::List(open.last().1);
            let parent = rest.last();
            let next_open = rest.drop_last().push((parent.0, parent.1.push(value)));
            lemma_run_prefix(parser, input, m, next_open, at + 1);
        }
        if let Ok((_, next)) = spec_run(parser, input, open, offset) {
            if next <= m {
                lemma_skip_prefix(parser, input, m, offset);
                assert(input.take(m)[at] == input[at]);
            }
        }
    }
}

/// Reading on from an octet string.
proof fn lemma_run_string_prefix(
    parser: Parser,
    input: Seq<u8>,
    m: int,
    open: Seq<OpenList>,
    offset: int,
    at: int,
)
    requires
        0 <= m <= input.len(),
        0 <= offset <= at < input.len(),
        at == spec_skip_whitespace(parser, input, offset),
        input[at] != 0x28,
        input[at] != 0x29,
    ensures
        run_reads_alike(parser, input, m, open, offset),
    decreases input.len() - at, 0int,
{
    lemma_string_prefix(parser, input, m, at);
    crate::decode::reader::lemma_string_progress(parser, input, at);
    if let Ok((atom, next)) = spec_string(parser, input, at) {
        if open.len() > 0 {
            let value = SexpV::Atom(atom);
            let parent = open.last();
            let next_open = open.drop_last().push((parent.0, parent.1.push(value)));
            lemma_run_prefix(parser, input, m, next_open, next);
        }
        if let Ok((_, last)) = spec_run(parser, input, open, offset) {
            if last <= m {
                lemma_skip_prefix(parser, input, m, offset);
                assert(input.take(m)[at] == input[at]);
            }
        }
    }
}

/// A basic transport representation read within the first `m` octets reads
/// the same when the input is cut after them.
proof fn lemma_transport_prefix(parser: Parser, input: Seq<u8>, m: int, position: int)
    requires
        0 <= m <= input.len(),
        0 <= position,
    ensures
        spec_transport(parser, input, position) matches Ok((_, next)) ==> position < next && (next
            <= m ==> spec_transport(parser, input.take(m), position) == spec_transport(
            parser,
            input,
            position,
        )),
{
    if parser.transport {
        let from = position + 1;
        crate::decode::reader::lemma_find(input, from, 0x7d);
        lemma_find_prefix(input, m, from, 0x7d);
        if let Some(end) = spec_find(input, from, 0x7d) {
            if end < m {
                assert(input.take(m).subrange(from, end) =~= input.subrange(from, end));
            }
        }
    }
}

/// One S-expression read from `offset`, where it ends within the first `m`
/// octets, reads the same when the input is cut after them.
proof fn lemma_sexp_prefix(parser: Parser, input: Seq<u8>, m: int, offset: int)
    requires
        0 <= m <= input.len(),
        0 <= offset,
    ensures
        spec_sexp(parser, input, offset) matches Ok((_, next)) ==> offset < next && (next <= m
            ==> spec_sexp(parser, input.take(m), offset) == spec_sexp(parser, input, offset)),
{
    let t = input.take(m);
    lemma_skip_whitespace(parser, input, offset);
    let at = spec_skip_whitespace(parser, input, offset);
    if 0 <= at < input.len() && input[at] == 0x7b {
        lemma_transport_prefix(parser, input, m, at);
        if let Ok((_, next)) = spec_sexp(parser, input, offset) {
            if next <= m {
                lemma_skip_prefix(parser, input, m, offset);
                assert(t[at] == input[at]);
            }
        }
    } else {
        lemma_run_prefix(parser, input, m, Seq::empty(), at);
        if let Ok((_, next)) = spec_sexp(parser, input, offset) {
            if next <= m {
                lemma_skip_prefix(parser, input, m, offset);
                if at < m {
                    assert(t[at] == input[at]);
                }
            }
        }
    }
}

/// Reading one S-expression from the start of the input takes at least one
/// octet and no more than the input holds, and the octets it took, read alone
/// as a whole input, are the same S-expression. So a stream of S-expressions
/// is read by reading one from the start, then one from where it ended, and
/// so on.
pub proof fn lemma_prefix_alone(parser: Parser, input: Seq<u8>)
    ensures
        spec_parse_prefix(parser, input) matches Ok((value, len)) ==> {
            &&& 1 <= len <= input.len()
            &&& spec_parse(parser, input.take(len)) == Ok::<SexpV, Failure>(value)
        },
{
    if let Ok((value, len)) = spec_parse_prefix(parser, input) {
        crate::decode::offsets::lemma_sexp_within(parser, input, 0);
        lemma_sexp_prefix(parser, input, len, 0);
        let t = input.take(len);
        assert(t.len() == len);
        lemma_skip_whitespace(parser, t, len);
    }
}

} // verus!
