//! The failures a call can end in.

use vstd::prelude::*;

verus! {

/// Why a call, or the whole connection, failed.
#[derive(Clone, Copy, Debug, PartialEq, Eq, Structural)]
pub enum Error {
    /// A request or a reply holds the frame delimiter inside its text.
    InvalidInput,
    /// The bytes of a frame are not valid UTF-8.
    InvalidEncoding,
    /// The connection is not open, or was lost while the call was pending.
    ConnectionFailed,
    /// A reply to a command is not the text that the command expects.
    UnexpectedResponse,
}

impl Error {
    /// A short text for the failure, for messages to people.
    pub fn message(&self) -> (text: &'static str)
        ensures
            text@ == match *self {
                Error::InvalidInput => "message contained new line"@,
                Error::InvalidEncoding => "invalid string"@,
                Error::ConnectionFailed => "connection failed"@,
                Error::UnexpectedResponse => "expected lease command"@,
            },
    {
        match self {
            Error::InvalidInput => "message contained new line",
            Error::InvalidEncoding => "invalid string",
            Error::ConnectionFailed => "connection failed",
            Error::UnexpectedResponse => "expected lease command",
        }
    }
}

} // verus!
