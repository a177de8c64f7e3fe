#![allow(deprecated)]

use tokio_core::io::EasyBuf;
use tokio_workq::codec::find_delimiter;
use tokio_workq::text::{has_delimiter, read_text};
use tokio_workq::{Error, WorkqCodec};

fn buffer(bytes: &[u8]) -> EasyBuf {
    EasyBuf::from(bytes.to_vec())
}

#[test]
fn decode_without_delimiter_waits_and_keeps_the_buffer() {
    let mut buf = buffer(b"partial");
    assert_eq!(WorkqCodec.decode(&mut buf), Ok(None));
    assert_eq!(buf.as_slice(), b"partial");
}

#[test]
fn decode_on_an_empty_buffer_waits() {
    let mut buf = EasyBuf::new();
    assert_eq!(WorkqCodec.decode(&mut buf), Ok(None));
    assert_eq!(buf.len(), 0);
}

#[test]
fn decode_takes_the_first_frame_and_its_delimiter() {
    let mut buf = buffer(b"hello\nworld");
    assert_eq!(WorkqCodec.decode(&mut buf), Ok(Some("hello".to_string())));
    assert_eq!(buf.as_slice(), b"world");
    assert_eq!(WorkqCodec.decode(&mut buf), Ok(None));
    assert_eq!(buf.as_slice(), b"world");
}

#[test]
fn decode_hands_out_frames_one_by_one() {
    let mut buf = buffer(b"a\nbc\n\nd");
    assert_eq!(WorkqCodec.decode(&mut buf), Ok(Some("a".to_string())));
    assert_eq!(WorkqCodec.decode(&mut buf), Ok(Some("bc".to_string())));
    assert_eq!(WorkqCodec.decode(&mut buf), Ok(Some(String::new())));
    assert_eq!(WorkqCodec.decode(&mut buf), Ok(None));
    assert_eq!(buf.as_slice(), b"d");
}

#[test]
fn decode_reads_text_beyond_ascii() {
    let mut buf = buffer("gr\u{fc}\u{df}e \u{4e16}\u{754c} \u{1f600}\nrest".as_bytes());
    assert_eq!(
        WorkqCodec.decode(&mut buf),
        Ok(Some("gr\u{fc}\u{df}e \u{4e16}\u{754c} \u{1f600}".to_string()))
    );
    assert_eq!(buf.as_slice(), b"rest");
}

#[test]
fn decode_refuses_bytes_that_are_not_utf8() {
    let mut buf = buffer(&[0xff, 0xfe, b'\n', b'o', b'k', b'\n']);
    assert_eq!(WorkqCodec.decode(&mut buf), Err(Error::InvalidEncoding));
    assert_eq!(buf.as_slice(), b"ok\n");
}

#[test]
fn decode_refuses_a_truncated_character() {
    let mut buf = buffer(&[b'a', 0xe4, 0xb8, b'\n']);
    assert_eq!(WorkqCodec.decode(&mut buf), Err(Error::InvalidEncoding));
    assert_eq!(buf.len(), 0);
}

#[test]
fn encode_appends_the_message_and_one_delimiter() {
    let mut out = b"kept".to_vec();
    assert_eq!(WorkqCodec.encode("ping".to_string(), &mut out), Ok(()));
    assert_eq!(out, b"keptping\n");
    assert_eq!(WorkqCodec.encode(String::new(), &mut out), Ok(()));
    assert_eq!(out, b"keptping\n\n");
}

#[test]
fn encode_does_not_forbid_a_delimiter_inside() {
    let mut out = Vec::new();
    assert_eq!(WorkqCodec.encode("a\nb".to_string(), &mut out), Ok(()));
    assert_eq!(out, b"a\nb\n");
}

#[test]
fn round_trip_gives_the_message_back() {
    for text in ["", "x", "lease ping1 10000", "[lease]", "tab\tand\rreturn", "\u{e9}t\u{e9} \u{1f980}"] {
        let mut wire = Vec::new();
        assert_eq!(WorkqCodec.encode(text.to_string(), &mut wire), Ok(()));
        let mut buf = EasyBuf::from(wire);
        assert_eq!(WorkqCodec.decode(&mut buf), Ok(Some(text.to_string())));
        assert_eq!(buf.len(), 0);
    }
}

#[test]
fn round_trip_leaves_what_stood_behind_the_frame() {
    let mut wire = Vec::new();
    assert_eq!(WorkqCodec.encode("first".to_string(), &mut wire), Ok(()));
    wire.extend_from_slice(b"second, not yet whole");
    let mut buf = EasyBuf::from(wire);
    assert_eq!(WorkqCodec.decode(&mut buf), Ok(Some("first".to_string())));
    assert_eq!(buf.as_slice(), b"second, not yet whole");
}

#[test]
fn byte_by_byte_nothing_comes_out_before_the_delimiter() {
    let wire = b"slow message\n";
    let mut buf = EasyBuf::new();
    for (i, byte) in wire.iter().enumerate() {
        buf.get_mut().push(*byte);
        let step = WorkqCodec.decode(&mut buf);
        if i + 1 < wire.len() {
            assert_eq!(step, Ok(None));
            assert_eq!(buf.as_slice(), &wire[..i + 1]);
        } else {
            assert_eq!(step, Ok(Some("slow message".to_string())));
            assert_eq!(buf.len(), 0);
        }
    }
}

#[test]
fn find_delimiter_names_the_first_one() {
    assert_eq!(find_delimiter(b""), None);
    assert_eq!(find_delimiter(b"abc"), None);
    assert_eq!(find_delimiter(b"\n"), Some(0));
    assert_eq!(find_delimiter(b"ab\ncd\n"), Some(2));
    assert_eq!(find_delimiter(b"abc\n"), Some(3));
}

#[test]
fn has_delimiter_sees_only_the_newline() {
    assert!(!has_delimiter(""));
    assert!(!has_delimiter("plain text"));
    assert!(!has_delimiter("carriage\rreturn"));
    assert!(!has_delimiter("\u{10a}\u{a0a}\u{1f60a}"));
    assert!(has_delimiter("\n"));
    assert!(has_delimiter("a\nb"));
    assert!(has_delimiter("\u{1f600}\n"));
}

#[test]
fn read_text_accepts_utf8_only() {
    assert_eq!(read_text(b"plain"), Ok("plain".to_string()));
    assert_eq!(read_text("\u{4e16}".as_bytes()), Ok("\u{4e16}".to_string()));
    assert_eq!(read_text(b""), Ok(String::new()));
    assert_eq!(read_text(&[0xc0, 0x80]), Err(Error::InvalidEncoding));
    assert_eq!(read_text(&[0xed, 0xa0, 0x80]), Err(Error::InvalidEncoding));
    assert_eq!(read_text(&[0x80]), Err(Error::InvalidEncoding));
}

#[test]
fn error_messages() {
    assert_eq!(Error::InvalidInput.message(), "message contained new line");
    assert_eq!(Error::InvalidEncoding.message(), "invalid string");
    assert_eq!(Error::ConnectionFailed.message(), "connection failed");
    assert_eq!(Error::UnexpectedResponse.message(), "expected lease command");
}
