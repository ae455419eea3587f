//! A builder of frames that keeps them line by line.

use crate::byte_string::extend_bytes;
use crate::decimal::{decimal, decimal_digits, push_decimal, push_digits};
use crate::protocol::decode::{decode, item_of, Item, RespVal};
use crate::protocol::{ProtoError, ProtoResult};
use crate::response::{crlf, RespSym, CR, LF};
use vstd::prelude::*;
use vstd::string::StringSliceAdditionalSpecFns;

verus! {

/// The lines, each with CR LF behind it.
pub open spec fn joined(lines: Seq<Seq<u8>>) -> Seq<u8>
    decreases lines.len(),
{
    if lines.len() == 0 {
        Seq::<u8>::empty()
    } else {
        joined(lines.drop_last()) + lines.last() + crlf()
    }
}

/// The bytes of a builder that holds the given lines: the lines, each with
/// CR LF behind it, and one CR LF where there is no line.
pub open spec fn built(lines: Seq<Seq<u8>>) -> Seq<u8> {
    if lines.len() == 0 {
        crlf()
    } else {
        joined(lines)
    }
}

/// A line that starts with a tag.
pub open spec fn tagged(sym: RespSym, payload: Seq<u8>) -> Seq<u8> {
    seq![sym.ascii()] + payload
}

pub struct RespBuilder {
    lines: Vec<Vec<u8>>,
}

impl View for RespBuilder {
    type V = Seq<Seq<u8>>;

    closed spec fn view(&self) -> Seq<Seq<u8>> {
        self.lines@.map_values(|line: Vec<u8>| line@)
    }
}

impl RespBuilder {
    pub fn new() -> (r: Self)
        ensures
            r@ == Seq::<Seq<u8>>::empty(),
    {
        let r = RespBuilder { lines: Vec::new() };
        assert(r@ =~= Seq::<Seq<u8>>::empty());
        r
    }

    /// Adds one line.
    fn push_line(&mut self, line: Vec<u8>)
        ensures
            final(self)@ == old(self)@.push(line@),
    {
        self.lines.push(line);
        assert(self@ =~= old(self)@.push(line@));
    }

    pub fn add_array_len(&mut self, len: i64)
        ensures
            final(self)@ == old(self)@.push(tagged(RespSym::Array, decimal(len as int))),
    {
        let mut line: Vec<u8> = Vec::new();
        line.push(RespSym::Array.as_ascii());
        push_decimal(&mut line, len);
        self.push_line(line);
    }

    pub fn add_simple_string(&mut self, value: &str)
        ensures
            final(self)@ == old(self)@.push(tagged(RespSym::SimpleString, value.spec_bytes())),
    {
        let mut line: Vec<u8> = Vec::new();
        line.push(RespSym::SimpleString.as_ascii());
        extend_bytes(&mut line, value.as_bytes());
        self.push_line(line);
    }

    pub fn add_bulk_string(&mut self, value: &str)
        ensures
            final(self)@ == old(self)@.push(
                tagged(RespSym::BulkString, decimal_digits(value.spec_bytes().len())),
            ).push(value.spec_bytes()),
    {
        let bytes = value.as_bytes();
        let mut line: Vec<u8> = Vec::new();
        line.push(RespSym::BulkString.as_ascii());
        push_digits(&mut line, bytes.len() as u128);
        self.push_line(line);
        let mut payload: Vec<u8> = Vec::new();
        extend_bytes(&mut payload, bytes);
        self.push_line(payload);
    }

    pub fn add_error(&mut self, value: &str)
        ensures
            final(self)@ == old(self)@.push(tagged(RespSym::Error, value.spec_bytes())),
    {
        let mut line: Vec<u8> = Vec::new();
        line.push(RespSym::Error.as_ascii());
        extend_bytes(&mut line, value.as_bytes());
        self.push_line(line);
    }

    pub fn add_integer(&mut self, value: i64)
        ensures
            final(self)@ == old(self)@.push(tagged(RespSym::Integer, decimal(value as int))),
    {
        let mut line: Vec<u8> = Vec::new();
        line.push(RespSym::Integer.as_ascii());
        push_decimal(&mut line, value);
        self.push_line(line);
    }

    pub fn as_bytes(&self) -> (r: Vec<u8>)
        ensures
            r@ == built(self@),
    {
        let mut buffer: Vec<u8> = Vec::new();
        if self.lines.len() == 0 {
            buffer.push(CR);
            buffer.push(LF);
            assert(buffer@ =~= crlf());
            return buffer;
        }
        let mut i: usize = 0;
        while i < self.lines.len()
            invariant
                i <= self.lines.len(),
                buffer@ == joined(self@.take(i as int)),
            decreases self.lines.len() - i,
        {
            proof {
                assert(self@.take(i + 1).drop_last() =~= self@.take(i as int));
                assert(self@.take(i + 1).last() == self.lines@[i as int]@);
            }
            extend_bytes(&mut buffer, self.lines[i].as_slice());
            buffer.push(CR);
            buffer.push(LF);
            i += 1;
            assert(buffer@ =~= joined(self@.take(i as int)));
        }
        assert(self@.take(self.lines.len() as int) =~= self@);
        buffer
    }

    /// Decodes the first frame of what was built.
    pub fn decode(&self) -> (r: ProtoResult<RespVal>)
        ensures
            match r {
                Ok(value) => item_of(built(self@), 0) matches Ok((item, _)) && item == value@,
                Err(e) => item_of(built(self@), 0) == Err::<(Item, Seq<u8>), ProtoError>(e),
            },
    {
        let bytes = self.as_bytes();
        decode(bytes.as_slice())
    }
}

} // verus!
