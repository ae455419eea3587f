//! What a connection does when a request cannot be read.

use crate::errors::Error;
use crate::protocol::ProtoError;
use crate::response::{error_frame, Response};
use vstd::prelude::*;
use vstd::string::StringExecFns;
use vstd::utf8::encode_utf8;

verus! {

/// What a connection does after a fault in reading a request.
#[derive(Debug)]
pub enum Reaction {
    /// Close the connection without a word: the client has closed it.
    Close,
    /// Go on with the next request: the client sent an empty one.
    Continue,
    /// Send the reply, then close the connection.
    ReplyAndClose(Response),
}

/// The reply that tells a client of a fault.
pub open spec fn fault_reply(error: Error) -> Seq<u8> {
    error_frame(encode_utf8("ERR "@ + error.text()))
}

/// Decides what a connection does after a fault in reading a request.
pub fn on_fault(error: &Error) -> (r: Reaction)
    ensures
        match *error {
            Error::Proto(ProtoError::ConnectionClosed) => r is Close,
            Error::EmptyRequest => r is Continue,
            _ => r matches Reaction::ReplyAndClose(reply) && reply@ == fault_reply(*error),
        },
{
    match error {
        Error::Proto(ProtoError::ConnectionClosed) => Reaction::Close,
        Error::EmptyRequest => Reaction::Continue,
        _ => {
            let mut message = String::from_str("ERR ");
            let text = error.to_string();
            message.append(text.as_str());
            let mut response = Response::new();
            response.add_error(message.as_str());
            Reaction::ReplyAndClose(response)
        },
    }
}

} // verus!
