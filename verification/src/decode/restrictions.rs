//! What a parser accepts keeps to the restrictions it was given.
//!
//! Whatever a [`Parser`] reads successfully is an S-expression that its
//! restrictions of §8 allow, nested no deeper than it allows: the refusals
//! along the way leave nothing through.

use vstd::prelude::*;

use crate::decode::error::Failure;
use crate::decode::parser::{spec_within_transport, Parser};
use crate::decode::reader::octet_string::spec_simple_string;
use crate::decode::reader::{
    spec_display_hint, spec_parse, spec_run, spec_sexp, spec_skip_whitespace, spec_string,
    spec_transport, spec_value, OpenList,
};
use crate::decode::round_trip::{lemma_permits_same, permits, permits_atom, permits_items};
use crate::types::atom::AtomV;
use crate::types::sexp::{spec_depth, spec_depth_of_items, SexpV};

verus! {

/// The lists open while reading leave room for what is read into them: none
/// deeper than the parser allows, each holding only elements the parser
/// allows, nested no deeper than the room left below it.
pub open spec fn open_obeys(parser: Parser, open: Seq<OpenList>) -> bool {
    &&& open.len() <= parser.max_depth
    &&& forall|i: int|
        0 <= i < open.len() ==> permits_items(parser, #[trigger] open[i].1) && i + 1
            + spec_depth_of_items(open[i].1) <= parser.max_depth
}

/// An octet string read with its display hint is one the parser allows.
proof fn lemma_string_obeys(parser: Parser, input: Seq<u8>, position: int)
    ensures
        spec_string(parser, input, position) matches Ok((atom, _)) ==> permits_atom(
            parser,
            atom,
        ),
{
    if 0 <= position < input.len() && input[position] == 0x5b {
        if let Ok((hint, after)) = spec_display_hint(parser, input, position) {
            let inner = spec_skip_whitespace(parser, input, position + 1);
            assert(spec_simple_string(parser, input, inner) matches Ok((h, _)) && h == hint);
        }
    }
}

/// Adding an element to the end of a run of elements: all are allowed where
/// both the run and the element are, and they nest as deep as the deeper.
proof fn lemma_items_push(parser: Parser, items: Seq<SexpV>, value: SexpV)
    ensures
        permits_items(parser, items.push(value)) == (permits_items(parser, items) && permits(
            parser,
            value,
        )),
        spec_depth_of_items(items.push(value)) == if spec_depth_of_items(items) >= spec_depth(
            value,
        ) {
            spec_depth_of_items(items)
        } else {
            spec_depth(value)
        },
{
    assert(items.push(value).drop_last() =~= items);
}

/// Reading on from `offset`, with lists open that keep to the parser's
/// restrictions, completes only a value the parser allows, nested no deeper
/// than it allows.
proof fn lemma_run_obeys(parser: Parser, input: Seq<u8>, open: Seq<OpenList>, offset: int)
    requires
        open_obeys(parser, open),
    ensures
        spec_run(parser, input, open, offset) matches Ok((value, _)) ==> permits(parser, value)
            && spec_depth(value) <= parser.max_depth,
    decreases input.len() - offset,
{
    let at = spec_skip_whitespace(parser, input, offset);
    crate::decode::reader::lemma_skip_whitespace(parser, input, offset);
    if at < 0 || at >= input.len() {
    } else if input[at] == 0x28 {
        if open.len() < parser.max_depth {
            let pushed = open.push((at, Seq::<SexpV>::empty()));
            assert forall|i: int| 0 <= i < pushed.len() implies permits_items(
                parser,
                #[trigger] pushed[i].1,
            ) && i + 1 + spec_depth_of_items(pushed[i].1) <= parser.max_depth by {
                if i < open.len() {
                    assert(pushed[i] == open[i]);
                }
            }
            lemma_run_obeys(parser, input, pushed, at + 1);
        }
    } else {
        let closing = input[at] == 0x29;
        if closing && open.len() > 0 {
            let items = open.last().1;
            let n = open.len() - 1;
            assert(open[n].1 == items);
            let value = SexpV::List(items);
            if crate::decode::reader::spec_check_list(parser, items, open.last().0) is Ok {
                assert(permits(parser, value));
                assert(spec_depth(value) == 1 + spec_depth_of_items(items));
                let rest = open.drop_last();
                if rest.len() > 0 {
                    let parent = rest.last();
                    let m = rest.len() - 1;
                    assert(rest[m] == open[m]);
                    let next_open = rest.drop_last().push((parent.0, parent.1.push(value)));
                    lemma_items_push(parser, parent.1, value);
                    assert forall|i: int| 0 <= i < next_open.len() implies permits_items(
                        parser,
                        #[trigger] next_open[i].1,
                    ) && i + 1 + spec_depth_of_items(next_open[i].1) <= parser.max_depth by {
                        if i < m {
                            assert(next_open[i] == open[i]);
                        }
                    }
                    lemma_run_obeys(parser, input, next_open, at + 1);
                }
            }
        } else if !closing {
            lemma_string_obeys(parser, input, at);
            crate::decode::reader::lemma_string_progress(parser, input, at);
            if let Ok((atom, next)) = spec_string(parser, input, at) {
                let value = SexpV::Atom(atom);
                if open.len() > 0 {
                    let parent = open.last();
                    let m = open.len() - 1;
                    assert(open[m] == parent);
                    let next_open = open.drop_last().push((parent.0, parent.1.push(value)));
                    lemma_items_push(parser, parent.1, value);
                    assert forall|i: int| 0 <= i < next_open.len() implies permits_items(
                        parser,
                        #[trigger] next_open[i].1,
                    ) && i + 1 + spec_depth_of_items(next_open[i].1) <= parser.max_depth by {
                        if i < m {
                            assert(next_open[i] == open[i]);
                        }
                    }
                    lemma_run_obeys(parser, input, next_open, next);
                }
            }
        }
    }
}

/// Whatever a parser reads is an S-expression its restrictions of §8 allow,
/// nested no deeper than it allows.
pub proof fn lemma_parse_obeys(parser: Parser, input: Seq<u8>)
    ensures
        spec_parse(parser, input) matches Ok(value) ==> permits(parser, value) && spec_depth(
            value,
        ) <= parser.max_depth,
    decreases (if parser.transport {
        1int
    } else {
        0int
    }),
{
    if input.len() <= parser.max_input_len {
        let at = spec_skip_whitespace(parser, input, 0);
        if 0 <= at < input.len() && input[at] == 0x7b {
            if parser.transport {
                let inner = spec_within_transport(parser);
                if let Some(end) = crate::decode::reader::spec_find(input, at + 1, 0x7d) {
                    if let Ok(octets) = crate::base64::spec_decode(input.subrange(at + 1, end)) {
                        lemma_parse_obeys(inner, octets);
                        if let Ok(value) = spec_parse(inner, octets) {
                            lemma_permits_same(parser, inner, value);
                        }
                    }
                }
            }
        } else {
            assert(open_obeys(parser, Seq::<OpenList>::empty()));
            lemma_run_obeys(parser, input, Seq::empty(), at);
            assert(spec_sexp(parser, input, 0) == spec_value(parser, input, at));
        }
    }
}

} // verus!
