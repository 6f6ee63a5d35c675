use csexpr::decode::{ErrorKind, Parser, DEFAULT_MAX_DEPTH};
use csexpr::encode::{advanced, canonical, transport};
use csexpr::types::{Atom, Sexp};

fn atom(text: &str) -> Sexp {
    Sexp::from(text)
}

fn list(items: Vec<Sexp>) -> Sexp {
    Sexp::list(items)
}

#[test]
fn new_restricts_nothing_but_the_depth() {
    let parser = Parser::new();

    assert_eq!(parser.max_depth, DEFAULT_MAX_DEPTH);
    assert_eq!(parser.max_atom_len, usize::MAX);
    assert_eq!(parser.max_input_len, usize::MAX);
    assert!(parser.advanced);
    assert!(parser.transport);
    assert!(parser.hints);
    assert!(parser.empty_atoms);
    assert!(parser.empty_lists);
    assert!(parser.list_as_first_element);
    assert!(parser.hexadecimal);
    assert!(parser.base64);
    assert!(parser.lengths);
}

#[test]
fn default_max_depth_is_a_thousand_and_twenty_four() {
    assert_eq!(DEFAULT_MAX_DEPTH, 1024);
}

#[test]
fn canonical_is_new_with_two_restrictions() {
    let expected = Parser::new().allow_advanced(false).allow_transport(false);

    assert_eq!(Parser::canonical(), expected);
}

#[test]
fn default_is_new() {
    assert_eq!(Parser::default(), Parser::new());
}

#[test]
fn every_restriction_is_kept_as_it_was_set() {
    let parser = Parser::new()
        .max_depth(3)
        .max_atom_len(4)
        .max_input_len(5)
        .allow_advanced(false)
        .allow_transport(false)
        .allow_display_hints(false)
        .allow_empty_atoms(false)
        .allow_empty_lists(false)
        .allow_list_as_first_element(false)
        .allow_hexadecimal(false)
        .allow_base64(false)
        .allow_lengths(false);

    assert_eq!(parser.max_depth, 3);
    assert_eq!(parser.max_atom_len, 4);
    assert_eq!(parser.max_input_len, 5);
    assert!(!parser.advanced);
    assert!(!parser.transport);
    assert!(!parser.hints);
    assert!(!parser.empty_atoms);
    assert!(!parser.empty_lists);
    assert!(!parser.list_as_first_element);
    assert!(!parser.hexadecimal);
    assert!(!parser.base64);
    assert!(!parser.lengths);
}

#[test]
fn within_transport_keeps_every_other_restriction() {
    let parser = Parser::new().max_depth(3).allow_empty_lists(false);
    let inner = parser.within_transport();

    assert!(!inner.advanced);
    assert!(!inner.transport);
    assert_eq!(inner.max_depth, 3);
    assert!(!inner.empty_lists);
}

#[test]
fn a_parser_may_be_used_more_than_once() {
    let parser = Parser::new();

    assert_eq!(parser.parse(b"1:a").unwrap(), atom("a"));
    assert_eq!(parser.parse(b"1:b").unwrap(), atom("b"));
}

// parse

#[test]
fn parse_reads_the_whole_input() {
    assert_eq!(
        Parser::new().parse(b"(1:a1:b)").unwrap(),
        list(vec![atom("a"), atom("b")])
    );
}

#[test]
fn parse_refuses_octets_after_a_complete_s_expression() {
    let parser = Parser::new();
    let error = parser.parse(b"4:data4:more").unwrap_err();

    assert_eq!(error.kind(), ErrorKind::TrailingOctets);
    assert_eq!(error.offset(), 6);
    assert_eq!(parser.parse(b"(a) (b)").unwrap_err().offset(), 4);
}

#[test]
fn parse_accepts_whitespace_after_a_complete_s_expression() {
    assert_eq!(Parser::new().parse(b"4:data \n").unwrap(), atom("data"));
}

#[test]
fn parse_refuses_input_longer_than_allowed() {
    let parser = Parser::new().max_input_len(6);
    let error = parser.parse(b"4:datax").unwrap_err();

    assert_eq!(parser.parse(b"4:data").unwrap(), atom("data"));
    assert_eq!(error.kind(), ErrorKind::InputTooLong);
    assert_eq!(error.offset(), 6);
}

// parse_prefix

#[test]
fn parse_prefix_reads_one_s_expression_and_says_how_far_it_read() {
    let parser = Parser::new();

    assert_eq!(
        parser.parse_prefix(b"4:data4:more").unwrap(),
        (atom("data"), 6)
    );
    assert_eq!(parser.parse_prefix(b"(a) (b)").unwrap(), (list(vec![atom("a")]), 3));
}

#[test]
fn parse_prefix_reads_a_stream_of_s_expressions() {
    let parser = Parser::new();
    let input = b"1:a1:b1:c";
    let mut offset = 0;
    let mut read = Vec::new();

    while offset < input.len() {
        let (sexp, len) = parser.parse_prefix(&input[offset..]).unwrap();

        read.push(sexp);
        offset += len;
    }

    assert_eq!(read, vec![atom("a"), atom("b"), atom("c")]);
}

#[test]
fn parse_prefix_counts_the_whitespace_it_had_to_pass_over() {
    let (sexp, len) = Parser::new().parse_prefix(b"  1:a1:b").unwrap();

    assert_eq!(sexp, atom("a"));
    assert_eq!(len, 5);
}

#[test]
fn parse_prefix_refuses_input_longer_than_allowed() {
    let error = Parser::new().max_input_len(2).parse_prefix(b"1:a").unwrap_err();

    assert_eq!(error.kind(), ErrorKind::InputTooLong);
    assert_eq!(error.offset(), 2);
}

// Reading back what was written

/// Every shape a representation has to carry.
fn corpus() -> Vec<Sexp> {
    vec![
        atom(""),
        atom("data"),
        atom("a b"),
        Sexp::atom(&[0x00, 0xff, 0x1b, 0x7f]),
        Sexp::atom(&vec![b'x'; 300]),
        Sexp::from(Atom::new(b"bob").with_hint(b"text/plain")),
        Sexp::from(Atom::new(b"").with_hint(b"")),
        Sexp::from(Atom::new(&[0xff]).with_hint(&[0x00])),
        list(vec![]),
        list(vec![atom("issuer"), atom("bob")]),
        list(vec![list(vec![]), list(vec![atom("a"), list(vec![atom("b"), atom("c")])])]),
    ]
}

#[test]
fn reads_back_what_the_canonical_writer_wrote() {
    let parser = Parser::new();

    for sexp in corpus() {
        assert_eq!(parser.parse(&canonical::to_vec(&sexp)).unwrap(), sexp);
    }
}

#[test]
fn reads_back_what_the_advanced_writer_wrote() {
    let parser = Parser::new();

    for sexp in corpus() {
        let written = advanced::to_string(&sexp);

        assert_eq!(parser.parse(written.as_bytes()).unwrap(), sexp);
    }
}

#[test]
fn reads_back_what_the_transport_writer_wrote() {
    let parser = Parser::new();

    for sexp in corpus() {
        assert_eq!(parser.parse(&transport::to_vec(&sexp)).unwrap(), sexp);
    }
}

#[test]
fn reads_the_three_representations_of_one_value_as_one_value() {
    let parser = Parser::new();

    for sexp in corpus() {
        let canonical = parser.parse(&canonical::to_vec(&sexp)).unwrap();
        let advanced = parser.parse(advanced::to_string(&sexp).as_bytes()).unwrap();
        let transport = parser.parse(&transport::to_vec(&sexp)).unwrap();

        assert_eq!(canonical, advanced);
        assert_eq!(advanced, transport);
    }
}

#[test]
fn writes_back_the_canonical_representation_it_read() {
    let parser = Parser::canonical();

    for sexp in corpus() {
        let written = canonical::to_vec(&sexp);
        let read = parser.parse(&written).unwrap();

        assert_eq!(canonical::to_vec(&read), written);
    }
}

#[test]
fn accepts_only_what_its_restrictions_allow() {
    let parser = Parser::new().max_depth(2).max_atom_len(3).allow_empty_lists(false);

    for input in [&b"(a (b))"[..], b"abc", b"(a)"] {
        let read = parser.parse(input).unwrap();

        assert!(read.depth() <= 2);
    }
    assert_eq!(parser.parse(b"((()))").unwrap_err().kind(), ErrorKind::TooDeep);
    assert_eq!(parser.parse(b"abcd").unwrap_err().kind(), ErrorKind::AtomTooLong);
    assert_eq!(parser.parse(b"(a ())").unwrap_err().kind(), ErrorKind::EmptyListNotAllowed);
}

#[test]
fn what_parse_reads_comes_back_from_every_representation() {
    let inputs: [&[u8]; 6] = [
        b"(6:issuer3:bob)",
        b"  ([text/plain]\"hello world\" #00ff# |YWJj| (a (b)))  ",
        b"{KDY6aXNzdWVyMzpib2Ip}",
        b"[\"\"]\"\"",
        b"(() ((x)))",
        b"3\"a\\nb\"",
    ];

    for input in inputs {
        let read = csexpr::decode::parse(input).unwrap();

        assert_eq!(
            csexpr::decode::parse_canonical(&canonical::to_vec(&read)).unwrap(),
            read
        );
        assert_eq!(csexpr::decode::parse(&transport::to_vec(&read)).unwrap(), read);
        assert_eq!(
            csexpr::decode::parse(advanced::to_string(&read).as_bytes()).unwrap(),
            read
        );
    }
}

#[test]
fn a_certificate_reads_back_from_what_is_written() {
    let cert = list(vec![
        atom("issuer"),
        Sexp::from(Atom::new(b"bob").with_hint(b"text/plain")),
    ]);
    let written = canonical::to_vec(&cert);

    assert_eq!(written, b"(6:issuer[10:text/plain]3:bob)");
    assert_eq!(csexpr::decode::parse(&written).unwrap(), cert);
    assert_eq!(cert.to_string(), "(issuer [text/plain]bob)");
    assert_eq!(
        csexpr::decode::parse(b"(issuer [text/plain]bob)").unwrap(),
        cert
    );
}

#[test]
fn a_restricted_parser_reads_only_what_it_allows() {
    let parser = Parser::canonical()
        .max_input_len(64 * 1024)
        .max_atom_len(4096)
        .max_depth(32)
        .allow_display_hints(false)
        .allow_empty_lists(false);

    assert!(parser.parse(b"(6:issuer3:bob)").is_ok());
    assert!(parser.parse(b"(issuer bob)").is_err());
}

#[test]
fn parse_prefix_reads_the_same_from_what_it_took_alone() {
    let parser = Parser::new();
    let inputs: [&[u8]; 6] = [
        b"1:a1:b1:c",
        b"  (a b) (c)",
        b"abc(",
        b"\"x\\\r\"rest",
        b"{KDY6aXNzdWVyMzpib2Ip}{KCk=}",
        b"[h]#0a0b# more",
    ];

    for input in inputs {
        let (sexp, len) = parser.parse_prefix(input).unwrap();

        assert!(1 <= len && len <= input.len());
        assert_eq!(parser.parse(&input[..len]).unwrap(), sexp);
    }
}
