//! The framing codec: between a stream of bytes and messages.
//!
//! A frame is the bytes of one message followed by one delimiter byte.
//! Decoding takes the first frame off a buffer; encoding appends a frame.

use crate::buffer::buf_bytes;
use crate::error::Error;
use crate::text::{holds_delimiter, lemma_delimiter_in_bytes, read_text, text_of, DELIMITER};
use tokio_core::io::EasyBuf;
use vstd::prelude::*;
use vstd::utf8::*;

verus! {

/// `n` is where the first delimiter of `bytes` stands.
pub open spec fn is_first_delimiter(bytes: Seq<u8>, n: int) -> bool {
    &&& 0 <= n < bytes.len()
    &&& bytes[n] == DELIMITER
    &&& forall|i: int| 0 <= i < n ==> bytes[i] != DELIMITER
}

/// Where the first delimiter of `bytes` stands, if they hold one.
pub open spec fn first_delimiter(bytes: Seq<u8>) -> Option<int> {
    if exists|n: int| is_first_delimiter(bytes, n) {
        Some(choose|n: int| is_first_delimiter(bytes, n))
    } else {
        None
    }
}

/// The bytes of one frame: the message's UTF-8 encoding, then the delimiter.
pub open spec fn frame(text: Seq<char>) -> Seq<u8> {
    encode_utf8(text).push(DELIMITER)
}

/// What decoding finds at the front of `bytes`: no complete frame yet, a
/// message, or a frame whose bytes are not text.
pub open spec fn decoded(bytes: Seq<u8>) -> Result<Option<Seq<char>>, Error> {
    match first_delimiter(bytes) {
        None => Ok(None),
        Some(n) => match text_of(bytes.take(n)) {
            Ok(text) => Ok(Some(text)),
            Err(e) => Err(e),
        },
    }
}

/// What decoding leaves in the buffer: everything behind the first frame, or
/// all of `bytes` when they hold no complete frame.
pub open spec fn remainder(bytes: Seq<u8>) -> Seq<u8> {
    match first_delimiter(bytes) {
        None => bytes,
        Some(n) => bytes.skip(n + 1),
    }
}

/// The result of a decoding step, with the message as its text.
pub open spec fn step_view(r: Result<Option<String>, Error>) -> Result<Option<Seq<char>>, Error> {
    match r {
        Ok(Some(message)) => Ok(Some(message@)),
        Ok(None) => Ok(None),
        Err(e) => Err(e),
    }
}

/// A position that meets `is_first_delimiter` is the one `first_delimiter` names.
pub proof fn lemma_first_delimiter_at(bytes: Seq<u8>, n: int)
    requires
        is_first_delimiter(bytes, n),
    ensures
        first_delimiter(bytes) == Some(n),
{
    let m = choose|m: int| is_first_delimiter(bytes, m);
    assert(is_first_delimiter(bytes, m));
    if m < n {
        assert(bytes[m] != DELIMITER);
    }
    if n < m {
        assert(bytes[n] != DELIMITER);
    }
}

/// Bytes without a delimiter have no first one, and the other way round.
pub proof fn lemma_first_delimiter_none(bytes: Seq<u8>)
    ensures
        first_delimiter(bytes) is None <==> !bytes.contains(DELIMITER),
        first_delimiter(bytes) is Some ==> is_first_delimiter(bytes, first_delimiter(bytes)->0),
{
    if bytes.contains(DELIMITER) {
        let k = choose|k: int| 0 <= k < bytes.len() && bytes[k] == DELIMITER;
        lemma_first_delimiter_upto(bytes, k);
    } else {
        if exists|n: int| is_first_delimiter(bytes, n) {
            let n = choose|n: int| is_first_delimiter(bytes, n);
            assert(bytes.contains(bytes[n]));
        }
    }
}

/// If a delimiter stands at `k`, a first one stands at or before `k`.
proof fn lemma_first_delimiter_upto(bytes: Seq<u8>, k: int)
    requires
        0 <= k < bytes.len(),
        bytes[k] == DELIMITER,
    ensures
        first_delimiter(bytes) is Some,
        0 <= first_delimiter(bytes)->0 <= k,
        is_first_delimiter(bytes, first_delimiter(bytes)->0),
    decreases k,
{
    if exists|j: int| 0 <= j < k && bytes[j] == DELIMITER {
        let j = choose|j: int| 0 <= j < k && bytes[j] == DELIMITER;
        lemma_first_delimiter_upto(bytes, j);
    } else {
        assert(is_first_delimiter(bytes, k));
        lemma_first_delimiter_at(bytes, k);
    }
}

/// A frame decodes to the message it was made of, and what stood behind the
/// frame is what stays, as long as the message holds no delimiter.
pub proof fn lemma_round_trip(text: Seq<char>, behind: Seq<u8>)
    requires
        !holds_delimiter(text),
    ensures
        decoded(frame(text) + behind) == Ok::<Option<Seq<char>>, Error>(Some(text)),
        remainder(frame(text) + behind) == behind,
{
    let payload = encode_utf8(text);
    let wire = frame(text) + behind;
    let n = payload.len() as int;
    lemma_delimiter_in_bytes(text);
    assert forall|i: int| 0 <= i < n implies wire[i] != DELIMITER by {
        assert(payload.contains(payload[i]));
    }
    assert(is_first_delimiter(wire, n));
    lemma_first_delimiter_at(wire, n);
    assert(wire.take(n) =~= payload);
    assert(wire.skip(n + 1) =~= behind);
    encode_utf8_valid_utf8(text);
    encode_utf8_decode_utf8(text);
}

/// A decoded message never holds the delimiter.
pub proof fn lemma_decoded_without_delimiter(bytes: Seq<u8>)
    ensures
        decoded(bytes) matches Ok(Some(text)) ==> !holds_delimiter(text),
{
    lemma_first_delimiter_none(bytes);
    if let Some(n) = first_delimiter(bytes) {
        let payload = bytes.take(n);
        if valid_utf8(payload) {
            let text = decode_utf8(payload);
            decode_utf8_encode_utf8(payload);
            lemma_delimiter_in_bytes(text);
            if payload.contains(DELIMITER) {
                let i = choose|i: int| 0 <= i < payload.len() && payload[i] == DELIMITER;
                assert(bytes[i] == DELIMITER);
            }
        }
    }
}

/// Scans `bytes` for the first delimiter.
pub fn find_delimiter(bytes: &[u8]) -> (r: Option<usize>)
    ensures
        match r {
            Some(n) => first_delimiter(bytes@) == Some(n as int),
            None => first_delimiter(bytes@) is None,
        },
{
    let mut i: usize = 0;
    while i < bytes.len()
        invariant
            i <= bytes.len(),
            forall|j: int| 0 <= j < i ==> bytes@[j] != DELIMITER,
        decreases bytes.len() - i,
    {
        if bytes[i] == DELIMITER {
            proof {
                lemma_first_delimiter_at(bytes@, i as int);
            }
            return Some(i);
        }
        i += 1;
    }
    proof {
        lemma_first_delimiter_none(bytes@);
        if bytes@.contains(DELIMITER) {
            let k = choose|k: int| 0 <= k < bytes@.len() && bytes@[k] == DELIMITER;
            assert(bytes@[k] != DELIMITER);
        }
    }
    None
}

/// The codec of the protocol. It keeps no state between calls.
pub struct WorkqCodec;

impl WorkqCodec {
    /// Takes the first frame off `buf`.
    ///
    /// Without a delimiter in the buffer there is no message yet, and the
    /// buffer is left as it was. Otherwise the frame and its delimiter leave
    /// the buffer, and the frame's bytes are returned as text, or refused as
    /// `InvalidEncoding` when they are not UTF-8.
    pub fn decode(&mut self, buf: &mut EasyBuf) -> (r: Result<Option<String>, Error>)
        ensures
            step_view(r) == decoded(buf_bytes(*old(buf))),
            buf_bytes(*final(buf)) == remainder(buf_bytes(*old(buf))),
            first_delimiter(buf_bytes(*old(buf))) is None ==> *final(buf) == *old(buf),
            r matches Ok(Some(message)) ==> !holds_delimiter(message@),
    {
        proof {
            lemma_decoded_without_delimiter(buf_bytes(*buf));
        }
        let found = find_delimiter(buf.as_slice());
        match found {
            None => Ok(None),
            Some(n) => {
                proof {
                    lemma_first_delimiter_none(buf_bytes(*buf));
                }
                let line = buf.drain_to(n);
                let _ = buf.drain_to(1);
                assert(buf_bytes(*buf) =~= buf_bytes(*old(buf)).skip(n + 1));
                match read_text(line.as_slice()) {
                    Ok(text) => Ok(Some(text)),
                    Err(e) => Err(e),
                }
            },
        }
    }

    /// Appends the frame of `msg` to `buf`. The message is not inspected: one
    /// that holds a delimiter goes out as it is.
    pub fn encode(&mut self, msg: String, buf: &mut Vec<u8>) -> (r: Result<(), Error>)
        ensures
            r is Ok,
            final(buf)@ == old(buf)@ + frame(msg@),
    {
        buf.extend_from_slice(msg.as_str().as_bytes());
        buf.push(DELIMITER);
        assert(buf@ =~= old(buf)@ + frame(msg@));
        Ok(())
    }
}

} // verus!
