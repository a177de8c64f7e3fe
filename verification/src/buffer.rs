//! The byte buffer that incoming bytes are gathered in: `tokio_core`'s
//! `EasyBuf`, with what this crate relies on of it.
//!
//! Nothing in this file is proved. Each contract states what the source of
//! `tokio_core` shows of the function below it.

use tokio_core::io::EasyBuf;
use vstd::prelude::*;

verus! {

/// `tokio_core::io::EasyBuf`: a window of bytes into a shared allocation.
#[verifier::external_type_specification]
#[verifier::external_body]
pub struct ExEasyBuf(EasyBuf);

/// The bytes inside the buffer's window, first to last: what `as_slice`
/// hands out.
pub uninterp spec fn buf_bytes(buf: EasyBuf) -> Seq<u8>;

/// `EasyBuf::new` makes a buffer whose window is empty.
pub assume_specification[ EasyBuf::new ]() -> (buf: EasyBuf)
    ensures
        buf_bytes(buf) == Seq::<u8>::empty(),
;

/// `EasyBuf::as_slice` borrows the bytes of the window.
pub assume_specification<'a>[ EasyBuf::as_slice ](buf: &'a EasyBuf) -> (bytes: &'a [u8])
    ensures
        bytes@ == buf_bytes(*buf),
;

/// `EasyBuf::drain_to` cuts the first `at` bytes off the window and returns
/// them as a buffer of their own; the rest stays. It panics when `at` is past
/// the end of the window, so callers must stay inside.
pub assume_specification[ EasyBuf::drain_to ](buf: &mut EasyBuf, at: usize) -> (head: EasyBuf)
    requires
        at <= buf_bytes(*old(buf)).len(),
    ensures
        buf_bytes(head) == buf_bytes(*old(buf)).take(at as int),
        buf_bytes(*final(buf)) == buf_bytes(*old(buf)).skip(at as int),
;

/// Appends `bytes` behind the window, through `EasyBuf::get_mut`: that call
/// gives the growable vector that holds exactly the window's bytes, and
/// dropping its guard moves the window's end to the vector's new length.
#[verifier::external_body]
pub(crate) fn buf_extend(buf: &mut EasyBuf, bytes: &[u8])
    ensures
        buf_bytes(*final(buf)) == buf_bytes(*old(buf)) + bytes@,
{
    buf.get_mut().extend_from_slice(bytes);
}

} // verus!
