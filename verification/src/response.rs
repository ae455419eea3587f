//! The reply under construction: an append-only buffer of encoded frames.

use crate::byte_string::{extend_bytes, utf8_lossy, AsBytes};
use crate::decimal::{decimal, decimal_digits, push_decimal, push_digits};
use vstd::prelude::*;
use vstd::string::StringSliceAdditionalSpecFns;
use vstd::utf8::{decode_utf8, valid_utf8};

verus! {

pub const CR: u8 = 0x0d;

pub const LF: u8 = 0x0a;

/// The tag byte that introduces each kind of frame.
#[derive(Copy, Clone, Debug, PartialEq, Eq, Structural)]
pub enum RespSym {
    SimpleString,
    Error,
    Integer,
    BulkString,
    Array,
}

impl RespSym {
    /// The tag as a byte: `+`, `-`, `:`, `$` or `*`.
    pub open spec fn ascii(self) -> u8 {
        match self {
            RespSym::SimpleString => 0x2b,
            RespSym::Error => 0x2d,
            RespSym::Integer => 0x3a,
            RespSym::BulkString => 0x24,
            RespSym::Array => 0x2a,
        }
    }

    pub fn as_ascii(self) -> (r: u8)
        ensures
            r == self.ascii(),
    {
        match self {
            RespSym::SimpleString => 0x2b,
            RespSym::Error => 0x2d,
            RespSym::Integer => 0x3a,
            RespSym::BulkString => 0x24,
            RespSym::Array => 0x2a,
        }
    }

    pub fn as_char(self) -> (r: char)
        ensures
            r as u32 == self.ascii() as u32,
    {
        match self {
            RespSym::SimpleString => '+',
            RespSym::Error => '-',
            RespSym::Integer => ':',
            RespSym::BulkString => '$',
            RespSym::Array => '*',
        }
    }

    /// The kind of frame that a tag byte introduces, if it is a tag.
    pub fn from_ascii(b: u8) -> (r: Option<RespSym>)
        ensures
            match r {
                Some(sym) => sym.ascii() == b,
                None => forall|sym: RespSym| sym.ascii() != b,
            },
    {
        if b == 0x2b {
            Some(RespSym::SimpleString)
        } else if b == 0x2d {
            Some(RespSym::Error)
        } else if b == 0x3a {
            Some(RespSym::Integer)
        } else if b == 0x24 {
            Some(RespSym::BulkString)
        } else if b == 0x2a {
            Some(RespSym::Array)
        } else {
            None
        }
    }
}

/// The two bytes that end every line.
pub open spec fn crlf() -> Seq<u8> {
    seq![CR, LF]
}

/// One line of the protocol: the tag, the payload, CR LF.
pub open spec fn line(sym: RespSym, payload: Seq<u8>) -> Seq<u8> {
    seq![sym.ascii()] + payload + crlf()
}

/// The header of an array of `len` items; `-1` makes the null array.
pub open spec fn array_frame(len: int) -> Seq<u8> {
    line(RespSym::Array, decimal(len))
}

/// An integer reply.
pub open spec fn integer_frame(value: int) -> Seq<u8> {
    line(RespSym::Integer, decimal(value))
}

/// A bulk string: its length on a line, then the bytes as they are, CR LF.
pub open spec fn bulk_frame(value: Seq<u8>) -> Seq<u8> {
    line(RespSym::BulkString, decimal_digits(value.len())) + value + crlf()
}

/// The null bulk string.
pub open spec fn null_string_frame() -> Seq<u8> {
    line(RespSym::BulkString, decimal(-1))
}

/// The null array.
pub open spec fn null_array_frame() -> Seq<u8> {
    line(RespSym::Array, decimal(-1))
}

/// A simple string reply.
pub open spec fn simple_frame(text: Seq<u8>) -> Seq<u8> {
    line(RespSym::SimpleString, text)
}

/// An error reply.
pub open spec fn error_frame(text: Seq<u8>) -> Seq<u8> {
    line(RespSym::Error, text)
}

/// The bulk strings of a sequence, one after the other.
pub open spec fn bulk_frames(values: Seq<Seq<u8>>) -> Seq<u8>
    decreases values.len(),
{
    if values.len() == 0 {
        Seq::<u8>::empty()
    } else {
        bulk_frames(values.drop_last()) + bulk_frame(values.last())
    }
}

#[derive(Debug)]
pub struct Response {
    buffer: Vec<u8>,
}

impl View for Response {
    type V = Seq<u8>;

    closed spec fn view(&self) -> Seq<u8> {
        self.buffer@
    }
}

impl Response {
    pub fn new() -> (r: Self)
        ensures
            r@ == Seq::<u8>::empty(),
    {
        Response { buffer: Vec::new() }
    }

    pub fn add_array_len(&mut self, len: i64)
        ensures
            final(self)@ == old(self)@ + array_frame(len as int),
    {
        self.buffer.push(RespSym::Array.as_ascii());
        push_decimal(&mut self.buffer, len);
        self.buffer.push(CR);
        self.buffer.push(LF);
        assert(self.buffer@ =~= old(self).buffer@ + array_frame(len as int));
    }

    pub fn add_integer(&mut self, value: i64)
        ensures
            final(self)@ == old(self)@ + integer_frame(value as int),
    {
        self.buffer.push(RespSym::Integer.as_ascii());
        push_decimal(&mut self.buffer, value);
        self.buffer.push(CR);
        self.buffer.push(LF);
        assert(self.buffer@ =~= old(self).buffer@ + integer_frame(value as int));
    }

    /// Appends an integer reply for a number that is not negative.
    pub fn add_natural(&mut self, value: u128)
        ensures
            final(self)@ == old(self)@ + integer_frame(value as int),
    {
        self.buffer.push(RespSym::Integer.as_ascii());
        push_digits(&mut self.buffer, value);
        self.buffer.push(CR);
        self.buffer.push(LF);
        assert(self.buffer@ =~= old(self).buffer@ + integer_frame(value as int));
    }

    /// Appends the header of an array of `len` items.
    pub fn add_array_of(&mut self, len: u128)
        ensures
            final(self)@ == old(self)@ + array_frame(len as int),
    {
        self.buffer.push(RespSym::Array.as_ascii());
        push_digits(&mut self.buffer, len);
        self.buffer.push(CR);
        self.buffer.push(LF);
        assert(self.buffer@ =~= old(self).buffer@ + array_frame(len as int));
    }

    pub fn add_bulk_string<T: AsBytes>(&mut self, value: T)
        ensures
            final(self)@ == old(self)@ + bulk_frame(value.bytes_view()),
    {
        let bytes = value.as_bytes();
        self.buffer.push(RespSym::BulkString.as_ascii());
        push_digits(&mut self.buffer, bytes.len() as u128);
        self.buffer.push(CR);
        self.buffer.push(LF);
        extend_bytes(&mut self.buffer, bytes);
        self.buffer.push(CR);
        self.buffer.push(LF);
        assert(self.buffer@ =~= old(self).buffer@ + bulk_frame(value.bytes_view()));
    }

    pub fn add_null_array(&mut self)
        ensures
            final(self)@ == old(self)@ + null_array_frame(),
    {
        self.add_array_len(-1);
    }

    pub fn add_null_string(&mut self)
        ensures
            final(self)@ == old(self)@ + null_string_frame(),
    {
        self.buffer.push(RespSym::BulkString.as_ascii());
        push_decimal(&mut self.buffer, -1);
        self.buffer.push(CR);
        self.buffer.push(LF);
        assert(self.buffer@ =~= old(self).buffer@ + null_string_frame());
    }

    pub fn add_simple_string(&mut self, value: &str)
        ensures
            final(self)@ == old(self)@ + simple_frame(value.spec_bytes()),
    {
        self.add_line(RespSym::SimpleString, value.as_bytes());
    }

    pub fn add_error(&mut self, value: &str)
        ensures
            final(self)@ == old(self)@ + error_frame(value.spec_bytes()),
    {
        self.add_line(RespSym::Error, value.as_bytes());
    }

    /// Appends one line: the tag, the payload as it is, CR LF.
    pub fn add_line(&mut self, sym: RespSym, payload: &[u8])
        ensures
            final(self)@ == old(self)@ + line(sym, payload@),
    {
        self.buffer.push(sym.as_ascii());
        extend_bytes(&mut self.buffer, payload);
        self.buffer.push(CR);
        self.buffer.push(LF);
        assert(self.buffer@ =~= old(self).buffer@ + line(sym, payload@));
    }

    pub fn as_bytes(&self) -> (r: &[u8])
        ensures
            r@ == self@,
    {
        self.buffer.as_slice()
    }

    /// The reply as text, for replies that hold text alone.
    pub fn as_string(&self) -> (r: String)
        ensures
            r@ == utf8_lossy(self@),
            valid_utf8(self@) ==> r@ == decode_utf8(self@),
    {
        crate::byte_string::ByteStr::from_slice(self.buffer.as_slice()).to_str_lossy()
    }
}

} // verus!
