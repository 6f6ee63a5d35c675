# csexpr

S-expressions, as specified by RFC 9804: an octet string, which may carry a
display hint, or a list of simpler S-expressions. The library reads and writes
all three representations of §6 (canonical, basic transport and advanced), and
every function in it carries a contract that Verus proves.

## Layout

- `src/types`: `Atom` and `Sexp`, each with a view (`AtomV`, `SexpV`) that the
  contracts speak of; depth and preorder traversal without recursion, and the
  escaped form a programmer is shown.
- `src/syntax.rs`: the classes of octets §3 and §4.3 name.
- `src/base64.rs`: base 64 as RFC 4648 gives it, encoding in one call or
  three octets at a time, and decoding with the offset of the first fault.
- `src/encode`: one writer for each representation, each specified by a spec
  function that says what it writes (`spec_canonical`, `spec_transport`,
  `spec_advanced`). Each also hands its representation out a piece at a time
  (`pieces`), so that a caller can pass it on without holding all of it.
- `src/decode`: `Parser` with every restriction §8 names, the `Reader` that
  does the work, and the errors it reports. `spec_parse` says what a parse
  returns for every input, errors and their offsets included.
- `app/`: what needs `std::io` or the formatting traits: writers that pass
  the pieces on to an `io::Write`, reading from an `io::Read`, a streaming
  base-64 encoder, and
  wrappers that give the errors `Display` and `std::error::Error`.

## What is proved beyond the contracts

- Reading gives back what writing wrote: the canonical representation
  (`decode::round_trip::lemma_parse_canonical`), the basic transport
  representation (`lemma_parse_transport`) and the advanced representation
  (`decode::advanced_round_trip::lemma_parse_advanced`), for every
  S-expression the parser's restrictions allow.
- Whatever `parse` reads comes back from each of the three representations
  (`decode::lemma_written_back`), and so does every `Sexp` a program holds,
  nested no deeper than the default depth
  (`decode::every_value::lemma_reads_back_every_value`); `parse_canonical`
  accepts exactly the canonical representation of such a value
  (`lemma_canonical_exactly`).
- What `parse_prefix` took, read alone, is the same S-expression
  (`decode::prefix::lemma_prefix_alone`), which is what reading a stream one
  prefix after another rests on.
- Octets a parser restricted to the canonical representation accepts are the
  canonical representation of what it read (`lemma_canonical_unique`), and two
  S-expressions never share one (`decode::injective::lemma_canonical_injective`).
- Whatever a parser accepts keeps to its restrictions and its depth limit
  (`decode::restrictions::lemma_parse_obeys`), and wherever it fails it
  reports an offset within the input or just past it
  (`decode::offsets::lemma_reported_within`).
- Base 64 decodes what it encoded (`base64::lemma_decode_encode`), and a
  writer fed in pieces of any size hands out the encoding of the whole
  (`lemma_writer_whatever_the_sizes`, built from `lemma_stream_start`,
  `lemma_stream_write` and `lemma_stream_finish`).
- The advanced representation is printable ASCII, and the basic transport
  representation is base-64 characters between two braces.
- No two kinds of error are described alike.
