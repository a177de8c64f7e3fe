//! Message text and its bytes.
//!
//! A message is text; on the wire it is the UTF-8 encoding of that text. The
//! contracts speak of both through `vstd::utf8`.

use crate::error::Error;
use core::str::Utf8Error;
use vstd::prelude::*;
use vstd::string::StringSliceAdditionalSpecFns;
use vstd::utf8::*;

verus! {

/// The byte that closes a frame: a newline.
pub const DELIMITER: u8 = 0x0A;

/// `core::str::Utf8Error`: why bytes are not UTF-8. Only passed through.
#[verifier::external_type_specification]
#[verifier::external_body]
pub struct ExUtf8Error(Utf8Error);

/// `core::str::from_utf8` succeeds exactly on well-formed UTF-8, and the
/// string slice it then returns is made of the very bytes it was given.
pub assume_specification<'a>[ core::str::from_utf8 ](bytes: &'a [u8]) -> (r: Result<
    &'a str,
    Utf8Error,
>)
    ensures
        r is Ok <==> valid_utf8(bytes@),
        r is Ok ==> r->Ok_0.spec_bytes() == bytes@,
;

/// The text that `bytes` encode, when they are well-formed UTF-8.
pub open spec fn text_of(bytes: Seq<u8>) -> Result<Seq<char>, Error> {
    if valid_utf8(bytes) {
        Ok(decode_utf8(bytes))
    } else {
        Err(Error::InvalidEncoding)
    }
}

/// Reads `bytes` as UTF-8 text.
pub fn read_text(bytes: &[u8]) -> (r: Result<String, Error>)
    ensures
        r is Ok <==> valid_utf8(bytes@),
        r is Ok ==> r->Ok_0@ == decode_utf8(bytes@),
        r is Err ==> r->Err_0 == Error::InvalidEncoding,
{
    match core::str::from_utf8(bytes) {
        Ok(s) => {
            proof {
                encode_utf8_decode_utf8(s@);
            }
            Ok(s.to_owned())
        },
        Err(_) => Err(Error::InvalidEncoding),
    }
}

/// The text holds the delimiter: a newline character.
pub open spec fn holds_delimiter(text: Seq<char>) -> bool {
    text.contains('\n')
}

/// Only the newline itself has the delimiter among the bytes of its encoding:
/// every byte of a longer encoding has its top bit set.
proof fn lemma_delimiter_in_scalar(c: u32)
    requires
        is_scalar(c),
    ensures
        encode_scalar(c).contains(DELIMITER) <==> c == 0x0A,
{
    let bytes = encode_scalar(c);
    assert(c <= 0x7F ==> ((c & 0x7F) as u8 == 0x0Au8 <==> c == 0x0A)) by (bit_vector);
    assert(0xC0u8 | ((c >> 6) & 0x1F) as u8 != 0x0Au8) by (bit_vector);
    assert(0xE0u8 | ((c >> 12) & 0x0F) as u8 != 0x0Au8) by (bit_vector);
    assert(0xF0u8 | ((c >> 18) & 0x7) as u8 != 0x0Au8) by (bit_vector);
    assert(0x80u8 | (c & 0x3F) as u8 != 0x0Au8) by (bit_vector);
    assert(0x80u8 | ((c >> 6) & 0x3F) as u8 != 0x0Au8) by (bit_vector);
    assert(0x80u8 | ((c >> 12) & 0x3F) as u8 != 0x0Au8) by (bit_vector);
    if bytes.contains(DELIMITER) {
        let i = choose|i: int| 0 <= i < bytes.len() && bytes[i] == DELIMITER;
        assert(bytes[i] == DELIMITER);
    }
    if c == 0x0A {
        assert(bytes[0] == DELIMITER);
    }
}

/// The bytes of a text hold the delimiter byte exactly when the text holds a
/// newline character.
pub proof fn lemma_delimiter_in_bytes(text: Seq<char>)
    ensures
        encode_utf8(text).contains(DELIMITER) <==> holds_delimiter(text),
    decreases text.len(),
{
    let bytes = encode_utf8(text);
    if text.len() > 0 {
        char_is_scalar(text[0]);
        char_u32_cast(text[0], text[0] as u32);
        char_u32_cast('\n', 0x0Au32);
        let head = encode_scalar(text[0] as u32);
        let tail = encode_utf8(text.drop_first());
        lemma_delimiter_in_scalar(text[0] as u32);
        lemma_delimiter_in_bytes(text.drop_first());
        if bytes.contains(DELIMITER) {
            let i = choose|i: int| 0 <= i < bytes.len() && bytes[i] == DELIMITER;
            if i < head.len() {
                assert(head[i] == DELIMITER);
                assert(text[0] == '\n');
            } else {
                assert(tail[i - head.len()] == DELIMITER);
                let j = choose|j: int| 0 <= j < text.drop_first().len() && text.drop_first()[j] == '\n';
                assert(text[j + 1] == '\n');
            }
        }
        if holds_delimiter(text) {
            let j = choose|j: int| 0 <= j < text.len() && text[j] == '\n';
            if j == 0 {
                let i = choose|i: int| 0 <= i < head.len() && head[i] == DELIMITER;
                assert(bytes[i] == DELIMITER);
            } else {
                assert(text.drop_first()[j - 1] == '\n');
                let i = choose|i: int| 0 <= i < tail.len() && tail[i] == DELIMITER;
                assert(bytes[head.len() + i] == DELIMITER);
            }
        }
    }
}

/// Tells whether `text` holds the delimiter.
pub fn has_delimiter(text: &str) -> (r: bool)
    ensures
        r == holds_delimiter(text@),
{
    let bytes = text.as_bytes();
    proof {
        lemma_delimiter_in_bytes(text@);
    }
    let mut i: usize = 0;
    while i < bytes.len()
        invariant
            i <= bytes.len(),
            forall|j: int| 0 <= j < i ==> bytes@[j] != DELIMITER,
            bytes@.contains(DELIMITER) <==> holds_delimiter(text@),
        decreases bytes.len() - i,
    {
        if bytes[i] == DELIMITER {
            assert(bytes@.contains(bytes@[i as int]));
            return true;
        }
        i += 1;
    }
    false
}

} // verus!
