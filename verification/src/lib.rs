//! Client side of a line-delimited, pipelined request/response protocol.
//!
//! Every message on the wire is UTF-8 text closed by one newline byte. Several
//! requests may be in flight on one connection; the n-th reply always answers
//! the n-th request. The crate holds the protocol decisions as verified state
//! machines: the caller performs the reads and writes on the byte stream and
//! hands the bytes over.

#![allow(deprecated)]

pub mod buffer;
pub mod client;
pub mod codec;
pub mod error;
pub mod lease;
pub mod pipeline;
pub mod session;
pub mod text;
pub mod validate;

pub use client::Client;
pub use codec::WorkqCodec;
pub use error::Error;
pub use pipeline::{Pipeline, Resolution, State};
pub use session::Session;
pub use validate::Validate;
