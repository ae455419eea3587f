//! What can go wrong while a frame is read.

use vstd::prelude::*;
use vstd::string::StringExecFns;

verus! {

/// `String::push`: the string with one character appended.
#[verifier::external_body]
pub(crate) fn push_char(text: &mut String, c: char)
    ensures
        final(text)@ == old(text)@.push(c),
{
    text.push(c);
}

pub type ProtoResult<T> = Result<T, ProtoError>;

#[derive(Debug, PartialEq)]
pub enum ProtoError {
    /// The stream ended where a frame was to start.
    ConnectionClosed,
    /// Arrays were nested deeper than the decoder follows them.
    ExceededDepthLimit,
    /// A line went on past the longest line accepted.
    ExceededMaxLineLength,
    /// A request of no arguments: the empty array or the null array.
    EmptyRequest,
    /// An array header whose length is no number, negative, or too large.
    InvalidArraySize,
    /// A bulk header whose length is no number, negative, or too large.
    InvalidBulkStringSize,
    /// A line that does not end in CR LF.
    InvalidTerminator,
    /// A frame introduced by a byte that is no tag, or not the tag expected.
    UnsupportedSymbol(char),
    Message(String),
    /// A line that holds nothing, not even a tag.
    MissingSymbol,
    /// The stream ended inside the payload of a bulk string.
    UnexpectedEof,
    /// An integer frame whose payload is no 64-bit decimal integer.
    InvalidInteger,
}

impl ProtoError {
    /// The text of an error, as it is shown to a client.
    pub open spec fn text(self) -> Seq<char> {
        match self {
            ProtoError::ConnectionClosed => "ConnectionClosed"@,
            ProtoError::ExceededDepthLimit => "ExceededDepthLimit"@,
            ProtoError::ExceededMaxLineLength => "ExceededMaxLineLength"@,
            ProtoError::EmptyRequest => "EmptyRequest"@,
            ProtoError::InvalidArraySize => "InvalidArraySize"@,
            ProtoError::InvalidBulkStringSize => "InvalidBulkStringSize"@,
            ProtoError::InvalidTerminator => "InvalidTerminator"@,
            ProtoError::UnsupportedSymbol(c) => "UnsupportedSymbol: "@.push(c),
            ProtoError::Message(msg) => msg@,
            ProtoError::MissingSymbol => "Error parsing resp header structure"@,
            ProtoError::UnexpectedEof => "UnexpectedEof"@,
            ProtoError::InvalidInteger => "InvalidInteger"@,
        }
    }

    pub fn to_string(&self) -> (r: String)
        ensures
            r@ == self.text(),
    {
        match self {
            ProtoError::ConnectionClosed => String::from_str("ConnectionClosed"),
            ProtoError::ExceededDepthLimit => String::from_str("ExceededDepthLimit"),
            ProtoError::ExceededMaxLineLength => String::from_str("ExceededMaxLineLength"),
            ProtoError::EmptyRequest => String::from_str("EmptyRequest"),
            ProtoError::InvalidArraySize => String::from_str("InvalidArraySize"),
            ProtoError::InvalidBulkStringSize => String::from_str("InvalidBulkStringSize"),
            ProtoError::InvalidTerminator => String::from_str("InvalidTerminator"),
            ProtoError::UnsupportedSymbol(c) => {
                let mut text = String::from_str("UnsupportedSymbol: ");
                push_char(&mut text, *c);
                text
            },
            ProtoError::Message(msg) => msg.clone(),
            ProtoError::MissingSymbol => String::from_str("Error parsing resp header structure"),
            ProtoError::UnexpectedEof => String::from_str("UnexpectedEof"),
            ProtoError::InvalidInteger => String::from_str("InvalidInteger"),
        }
    }
}

} // verus!
