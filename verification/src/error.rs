//! The error taxonomy of the client.
use vstd::prelude::*;

verus! {

/// Every way a call on the client can fail.
///
/// `Connection` and `Io` are raised by the code that owns the stream;
/// `Framing` means the response header was not hexadecimal; `Serialization`
/// carries the parser's message for a malformed body; `Auth` carries the
/// server-reported reason a login failed; `Decode` means a sample body did
/// not fit the record layout it was decoded under.
#[derive(Debug, PartialEq)]
pub enum BoneError {
    NotConnected,
    Connection(String),
    Io(String),
    Framing(String),
    Serialization(String),
    Auth(String),
    Decode(String),
}

} // verus!
