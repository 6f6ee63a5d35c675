use std::io::{self, Write};

use csexpr::base64::{decode, encode_into, encoded_len, Writer};

/// The test vectors of RFC 4648 §10.
const VECTORS: &[(&str, &str)] = &[
    ("", ""),
    ("f", "Zg=="),
    ("fo", "Zm8="),
    ("foo", "Zm9v"),
    ("foob", "Zm9vYg=="),
    ("fooba", "Zm9vYmE="),
    ("foobar", "Zm9vYmFy"),
];

/// An encoder that passes what it codes on to `inner`.
struct Streaming<W: Write> {
    coder: Writer,
    inner: W,
}

impl<W: Write> Streaming<W> {
    fn new(inner: W) -> Self {
        Self { coder: Writer::new(), inner }
    }

    fn finish(mut self) -> io::Result<W> {
        let coded = self.coder.finish();
        self.inner.write_all(&coded)?;
        Ok(self.inner)
    }
}

impl<W: Write> Write for Streaming<W> {
    fn write(&mut self, octets: &[u8]) -> io::Result<usize> {
        let (taken, coded) = self.coder.write(octets);
        self.inner.write_all(&coded)?;
        Ok(taken)
    }

    fn flush(&mut self) -> io::Result<()> {
        self.inner.flush()
    }
}

fn streamed(octets: &[u8], chunk: usize) -> String {
    let mut writer = Streaming::new(Vec::new());

    for part in octets.chunks(chunk.max(1)) {
        writer.write_all(part).unwrap();
    }

    String::from_utf8(writer.finish().unwrap()).unwrap()
}

// encoded_len

#[test]
fn encoded_len_counts_four_characters_per_group() {
    assert_eq!(encoded_len(0), 0);
    assert_eq!(encoded_len(1), 4);
    assert_eq!(encoded_len(3), 4);
    assert_eq!(encoded_len(4), 8);
    assert_eq!(encoded_len(6), 8);
}

#[test]
fn encoded_len_matches_what_is_encoded() {
    for len in 0..64 {
        let mut out = String::new();

        encode_into(&vec![0xa5; len], &mut out);

        assert_eq!(out.len(), encoded_len(len));
    }
}

#[test]
fn encoded_len_saturates_where_the_count_would_overflow() {
    assert_eq!(encoded_len(usize::MAX), usize::MAX);
}

// encode_into

#[test]
fn encode_into_matches_the_rfc_4648_test_vectors() {
    for (octets, expected) in VECTORS {
        let mut out = String::new();

        encode_into(octets.as_bytes(), &mut out);

        assert_eq!(out, *expected);
    }
}

#[test]
fn encode_into_uses_the_standard_alphabet() {
    let mut out = String::new();

    encode_into(&[0xff, 0xef, 0xbe], &mut out);

    assert_eq!(out, "/+++");
}

#[test]
fn encode_into_appends_to_what_is_there() {
    let mut out = String::from("{");

    encode_into(b"foo", &mut out);

    assert_eq!(out, "{Zm9v");
}

#[test]
fn encode_into_pads_a_partial_group() {
    for (octets, expected) in VECTORS {
        let mut out = String::new();

        encode_into(octets.as_bytes(), &mut out);

        let padding = 3 - (octets.len() + 2) % 3 - 1;

        assert_eq!(out.bytes().filter(|&c| c == b'=').count(), padding);
        assert_eq!(out, *expected);
    }
}

// Writer

#[test]
fn writer_matches_the_rfc_4648_test_vectors() {
    for (octets, expected) in VECTORS {
        assert_eq!(streamed(octets.as_bytes(), 64), *expected);
    }
}

#[test]
fn writer_encodes_the_same_whatever_the_write_sizes() {
    let octets: Vec<u8> = (0..=255).collect();
    let mut expected = String::new();

    encode_into(&octets, &mut expected);

    for chunk in [1, 2, 3, 4, 5, 7, 64, 256] {
        assert_eq!(streamed(&octets, chunk), expected);
    }
}

#[test]
fn writer_holds_a_partial_group_until_it_finishes() {
    let mut writer = Streaming::new(Vec::new());

    writer.write_all(b"fo").unwrap();

    assert!(writer.inner.is_empty());
    assert_eq!(String::from_utf8(writer.finish().unwrap()).unwrap(), "Zm8=");
}

#[test]
fn writer_finishes_an_empty_encoding_as_nothing() {
    assert_eq!(streamed(b"", 1), "");
}

#[test]
fn writer_reports_a_failure_of_the_writer() {
    struct Full;

    impl Write for Full {
        fn write(&mut self, _: &[u8]) -> io::Result<usize> {
            Err(io::Error::from(io::ErrorKind::StorageFull))
        }

        fn flush(&mut self) -> io::Result<()> {
            Ok(())
        }
    }

    let mut writer = Streaming::new(Full);

    assert!(writer.write_all(b"foo").is_err());
    assert!(Streaming::new(Full).write_all(b"f").is_ok());
    assert!(Streaming::new(Full).finish().is_ok());
}

#[test]
fn writer_takes_only_what_completes_the_waiting_group() {
    let mut writer = Writer::new();

    assert_eq!(writer.write(b"f"), (1, Vec::new()));
    assert_eq!(writer.write(b"oobar"), (2, b"Zm9v".to_vec()));
    assert_eq!(writer.write(b"barb"), (3, b"YmFy".to_vec()));
    assert_eq!(writer.write(b""), (0, Vec::new()));
    assert_eq!(writer.finish(), Vec::new());
}

// decode

#[test]
fn decode_reverses_the_rfc_4648_test_vectors() {
    for (octets, encoded) in VECTORS {
        assert_eq!(decode(encoded.as_bytes()), Ok(octets.as_bytes().to_vec()));
    }
}

#[test]
fn decode_gives_back_whatever_was_encoded() {
    for len in 0..64usize {
        let octets: Vec<u8> = (0..len).map(|index| (index * 37 % 256) as u8).collect();
        let mut encoded = String::new();

        encode_into(&octets, &mut encoded);

        assert_eq!(decode(encoded.as_bytes()), Ok(octets));
    }
}

#[test]
fn decode_reports_where_the_encoding_goes_wrong() {
    // An octet outside the alphabet, where it stands.
    assert_eq!(decode(b"Zm9v!"), Err(4));
    // A group the input ends in the middle of, where the group began.
    assert_eq!(decode(b"Z"), Err(0));
    assert_eq!(decode(b"Zm9vZg="), Err(4));
    // Bits that no octet holds, at the character that carries them.
    assert_eq!(decode(b"Zh=="), Err(1));
    // Anything but whitespace after a padded group, where it stands.
    assert_eq!(decode(b"Zg==Zg=="), Err(4));
    assert_eq!(decode(b"Zg== \n"), Ok(b"f".to_vec()));
}

#[test]
fn write_all_takes_everything_and_codes_whole_groups() {
    let mut writer = Writer::new();

    assert_eq!(writer.write_all(b"fooba"), b"Zm9v".to_vec());
    assert_eq!(writer.write_all(b"r"), b"YmFy".to_vec());
    assert_eq!(writer.write_all(b"f"), Vec::new());
    assert_eq!(writer.finish(), b"Zg==".to_vec());
}
