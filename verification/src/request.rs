//! A request: the command name and its arguments, as the client sent them.

use crate::byte_string::{utf8_lossy, views, ByteStr, ByteString};
use crate::decimal::{decimal_digits, push_digits};
use crate::errors::{Error, Result};
use vstd::prelude::*;
use vstd::slice::slice_subrange;
use vstd::string::StringExecFns;
use vstd::utf8::decode_utf8;

verus! {

/// One argument as the unknown-command reply shows it: in backquotes, with
/// a comma behind.
pub open spec fn quoted(arg: Seq<u8>) -> Seq<char> {
    "`"@ + utf8_lossy(arg) + "`,"@
}

/// The arguments as the unknown-command reply shows them: each one quoted,
/// with a blank between two.
pub open spec fn shown_args(args: Seq<Seq<u8>>) -> Seq<char>
    decreases args.len(),
{
    if args.len() == 0 {
        Seq::<char>::empty()
    } else if args.len() == 1 {
        quoted(args[0])
    } else {
        shown_args(args.drop_last()) + " "@ + quoted(args.last())
    }
}

/// The message for an argument that a request does not have.
pub open spec fn missing_argument(index: usize) -> Seq<char> {
    "Argument at "@ + decode_utf8(decimal_digits(index as nat)) + " does not exist"@
}

/// Reads one request from the front of a stream. The empty request and the
/// null request are told apart from the other faults of the protocol.
pub fn parse(stream: &mut &[u8]) -> (r: Result<Request>)
    ensures
        match r {
            Ok(request) => crate::protocol::request_of(old(stream)@) == Ok::<
                (Seq<Seq<u8>>, Seq<u8>),
                crate::protocol::ProtoError,
            >((request@, final(stream)@)),
            Err(e) => crate::protocol::request_of(old(stream)@) matches Err(fault) && e == (
            match fault {
                crate::protocol::ProtoError::EmptyRequest => Error::EmptyRequest,
                _ => Error::Proto(fault),
            }),
        },
{
    match crate::protocol::decode_from(stream) {
        Ok(query) => {
            proof {
                crate::protocol::lemma_request_len(old(stream)@);
            }
            match Request::try_from(query) {
                Ok(request) => Ok(request),
                Err(e) => Err(e),
            }
        },
        Err(fault) => Err(Error::from(fault)),
    }
}

/// A non-empty sequence of byte strings, the first of which is the command.
#[derive(Debug, PartialEq)]
pub struct Request {
    query: Vec<ByteString>,
}

impl View for Request {
    type V = Seq<Seq<u8>>;

    closed spec fn view(&self) -> Seq<Seq<u8>> {
        views(self.query@)
    }
}

impl Request {
    #[verifier::type_invariant]
    closed spec fn nonempty(&self) -> bool {
        0 < self.query@.len() <= i64::MAX
    }

    /// The request of the given items, the first being the command. An
    /// empty sequence is no request.
    pub fn try_from(query: Vec<ByteString>) -> (r: Result<Self>)
        ensures
            match r {
                Ok(request) => request@ == views(query@) && 0 < query@.len() <= i64::MAX,
                Err(Error::EmptyRequest) => query@.len() == 0,
                Err(Error::CastingInt(_)) => query@.len() > i64::MAX,
                Err(_) => false,
            },
    {
        if query.len() == 0 {
            return Err(Error::EmptyRequest);
        }
        match i64::try_from(query.len()) {
            Ok(_) => Ok(Request { query }),
            Err(e) => Err(Error::CastingInt(e)),
        }
    }

    pub fn command(&self) -> (r: ByteStr<'_>)
        ensures
            self@.len() > 0,
            r@ == self@[0],
    {
        proof {
            use_type_invariant(self);
        }
        self.query[0].as_byte_str()
    }

    pub fn maybe_arg(&self, index: usize) -> (r: Option<&ByteString>)
        ensures
            match r {
                Some(arg) => index + 1 < self@.len() && arg@ == self@[index + 1],
                None => index + 1 >= self@.len(),
            },
    {
        proof {
            use_type_invariant(self);
        }
        if index < self.query.len() - 1 {
            Some(&self.query[index + 1])
        } else {
            None
        }
    }

    pub fn arg(&self, index: usize) -> (r: Result<&ByteString>)
        ensures
            match r {
                Ok(arg) => index + 1 < self@.len() && arg@ == self@[index + 1],
                Err(Error::Message(text)) => index + 1 >= self@.len() && text@ == missing_argument(
                    index,
                ),
                Err(_) => false,
            },
    {
        match self.maybe_arg(index) {
            Some(arg) => Ok(arg),
            None => {
                let mut digits: Vec<u8> = Vec::new();
                push_digits(&mut digits, index as u128);
                proof {
                    crate::decimal::lemma_digits_are_text(index as nat);
                }
                let number = ByteStr::from_slice(digits.as_slice()).to_str_lossy();
                let mut text = String::from_str("Argument at ");
                text.append(number.as_str());
                text.append(" does not exist");
                Err(Error::Message(text))
            },
        }
    }

    pub fn arity(&self) -> (r: i64)
        ensures
            r == self@.len(),
            r >= 1,
    {
        proof {
            use_type_invariant(self);
        }
        self.query.len() as i64
    }

    pub fn arguments(&self) -> (r: &[ByteString])
        ensures
            self@.len() > 0,
            r@.len() == self@.len() - 1,
            views(r@) == self@.skip(1),
    {
        proof {
            use_type_invariant(self);
        }
        let r = slice_subrange(self.query.as_slice(), 1, self.query.len());
        assert(views(r@) =~= views(self.query@).skip(1));
        r
    }

    /// The arguments from the one at `index` on; none where the request
    /// has no argument at `index`.
    pub fn arguments_from(&self, index: usize) -> (r: &[ByteString])
        ensures
            index + 1 <= self@.len() ==> r@.len() == self@.len() - 1 - index && views(r@)
                == self@.skip(index + 1),
            index + 1 > self@.len() ==> r@.len() == 0,
    {
        proof {
            use_type_invariant(self);
        }
        if index < self.query.len() {
            let r = slice_subrange(self.query.as_slice(), index + 1, self.query.len());
            assert(views(r@) =~= views(self.query@).skip(index + 1));
            r
        } else {
            slice_subrange(self.query.as_slice(), 0, 0)
        }
    }

    pub fn argv_to_string(&self) -> (r: String)
        ensures
            self@.len() > 0,
            r@ == shown_args(self@.skip(1)),
    {
        proof {
            use_type_invariant(self);
        }
        let ghost args = self@.skip(1);
        let mut text = String::new();
        let mut i: usize = 1;
        while i < self.query.len()
            invariant
                1 <= i <= self.query.len(),
                args == views(self.query@).skip(1),
                text@ == shown_args(args.take(i - 1)),
            decreases self.query.len() - i,
        {
            let ghost before = args.take(i - 1);
            let ghost after = args.take(i as int);
            assert(after.drop_last() =~= before);
            assert(after.last() == self.query@[i as int]@);
            if i > 1 {
                text.append(" ");
            }
            text.append("`");
            let shown = self.query[i].to_string();
            text.append(shown.as_str());
            text.append("`,");
            assert(text@ =~= shown_args(after));
            i += 1;
        }
        assert(args.take(self.query.len() - 1) =~= args);
        text
    }
}

} // verus!
