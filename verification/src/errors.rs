//! The errors of the server: what a handler hands back to the dispatcher.

use crate::protocol::ProtoError;
use vstd::prelude::*;
use vstd::std_specs::convert::FromSpecImpl;
use vstd::string::StringExecFns;

verus! {

pub type Result<T> = core::result::Result<T, Error>;

#[derive(Debug, PartialEq)]
pub enum Error {
    EmptyRequest,
    UnimplementedCommand,
    UnsupportedRequestType,
    Message(String),
    ProtocolError,
    Proto(ProtoError),
    CastingInt(core::num::TryFromIntError),
}

impl Error {
    /// The text of an error, as it is logged and shown.
    pub open spec fn text(self) -> Seq<char> {
        match self {
            Error::EmptyRequest => "Empty query"@,
            Error::UnimplementedCommand => "Unimplemented command"@,
            Error::UnsupportedRequestType => "Unsupported request type"@,
            Error::Message(msg) => msg@,
            Error::ProtocolError => "Protocol error: expected '$', got something else"@,
            Error::Proto(source) => source.text(),
            Error::CastingInt(_) => "out of range integral type conversion attempted"@,
        }
    }

    pub fn to_string(&self) -> (r: String)
        ensures
            r@ == self.text(),
    {
        match self {
            Error::EmptyRequest => String::from_str("Empty query"),
            Error::UnimplementedCommand => String::from_str("Unimplemented command"),
            Error::UnsupportedRequestType => String::from_str("Unsupported request type"),
            Error::Message(msg) => msg.clone(),
            Error::ProtocolError => String::from_str(
                "Protocol error: expected '$', got something else",
            ),
            Error::Proto(source) => source.to_string(),
            Error::CastingInt(_) => String::from_str(
                "out of range integral type conversion attempted",
            ),
        }
    }

    /// The error that carries a message.
    pub fn message(text: &str) -> (r: Self)
        ensures
            r matches Error::Message(m) && m@ == text@,
    {
        Error::Message(String::from_str(text))
    }
}

impl From<ProtoError> for Error {
    fn from(other: ProtoError) -> (r: Self)
        ensures
            r == (match other {
                ProtoError::EmptyRequest => Error::EmptyRequest,
                _ => Error::Proto(other),
            }),
    {
        match other {
            ProtoError::EmptyRequest => Error::EmptyRequest,
            _ => Error::Proto(other),
        }
    }
}

impl FromSpecImpl<ProtoError> for Error {
    open spec fn obeys_from_spec() -> bool {
        true
    }

    open spec fn from_spec(other: ProtoError) -> Self {
        match other {
            ProtoError::EmptyRequest => Error::EmptyRequest,
            _ => Error::Proto(other),
        }
    }
}

impl From<&str> for Error {
    fn from(other: &str) -> (r: Self)
        ensures
            r matches Error::Message(m) && m@ == other@,
    {
        Error::Message(String::from_str(other))
    }
}

impl FromSpecImpl<&str> for Error {
    open spec fn obeys_from_spec() -> bool {
        false
    }

    open spec fn from_spec(other: &str) -> Self {
        arbitrary()
    }
}

impl From<String> for Error {
    fn from(other: String) -> (r: Self)
        ensures
            r == Error::Message(other),
    {
        Error::Message(other)
    }
}

impl FromSpecImpl<String> for Error {
    open spec fn obeys_from_spec() -> bool {
        true
    }

    open spec fn from_spec(other: String) -> Self {
        Error::Message(other)
    }
}

impl From<core::num::TryFromIntError> for Error {
    fn from(other: core::num::TryFromIntError) -> (r: Self)
        ensures
            r == Error::CastingInt(other),
    {
        Error::CastingInt(other)
    }
}

impl FromSpecImpl<core::num::TryFromIntError> for Error {
    open spec fn obeys_from_spec() -> bool {
        true
    }

    open spec fn from_spec(other: core::num::TryFromIntError) -> Self {
        Error::CastingInt(other)
    }
}

} // verus!
