//! The decoder for every kind of frame: simple strings, errors, integers,
//! bulk strings and arrays, nested to a bounded depth.

use crate::byte_string::from_bytes::{from_bytes, parsed};
use crate::byte_string::ByteString;
use crate::protocol::{
    header_of, payload_of, read_bulk_string, read_header, symbol_char, ProtoError, ProtoResult,
    MAX_ARRAY_SIZE, MAX_BULK_STR_SIZE,
};
use crate::response::RespSym;
use vstd::prelude::*;

verus! {

/// The deepest that arrays may be nested.
pub const DEPTH_LIMIT: usize = 512;

/// A decoded frame.
#[derive(Debug, PartialEq)]
pub enum RespVal {
    SimpleString(ByteString),
    Error(ByteString),
    Integer(i64),
    /// A bulk string; `None` is the null bulk string.
    BulkString(Option<ByteString>),
    /// An array; `None` is the null array.
    Array(Option<Vec<RespVal>>),
}

/// What a decoded frame holds.
pub enum Item {
    SimpleString(Seq<u8>),
    Error(Seq<u8>),
    Integer(i64),
    BulkString(Option<Seq<u8>>),
    Array(Option<Seq<Item>>),
}

/// What a decoded frame holds.
pub open spec fn item_view(value: RespVal) -> Item
    decreases value,
    via item_view_decreases
{
    match value {
        RespVal::SimpleString(text) => Item::SimpleString(text@),
        RespVal::Error(text) => Item::Error(text@),
        RespVal::Integer(n) => Item::Integer(n),
        RespVal::BulkString(None) => Item::BulkString(None),
        RespVal::BulkString(Some(bytes)) => Item::BulkString(Some(bytes@)),
        RespVal::Array(None) => Item::Array(None),
        RespVal::Array(Some(values)) => Item::Array(
            Some(
                Seq::new(
                    values.len() as nat,
                    |i: int|
                        if 0 <= i < values.len() {
                            item_view(values[i])
                        } else {
                            Item::Array(None)
                        },
                ),
            ),
        ),
    }
}

#[via_fn]
proof fn item_view_decreases(value: RespVal) {
    broadcast use vstd::std_specs::vec::axiom_vec_index_decreases;

}

/// What each of a sequence of decoded frames holds.
pub open spec fn items_view(values: Seq<RespVal>) -> Seq<Item> {
    Seq::new(values.len(), |i: int| item_view(values[i]))
}

/// An array holds what its items hold.
pub proof fn lemma_array_view(values: Vec<RespVal>)
    ensures
        RespVal::Array(Some(values))@ == Item::Array(Some(items_view(values@))),
{
    let whole = RespVal::Array(Some(values))@;
    assert(whole->Array_0->Some_0 =~= items_view(values@));
}

impl View for RespVal {
    type V = Item;

    open spec fn view(&self) -> Item {
        item_view(*self)
    }
}

/// The bulk string that a header declares, read from what follows the
/// header.
pub open spec fn bulk_item(tail: Seq<u8>, rest: Seq<u8>) -> Result<(Item, Seq<u8>), ProtoError> {
    match parsed(tail, i64::MIN as int, i64::MAX as int) {
        None => Err(ProtoError::InvalidBulkStringSize),
        Some(n) => if n == -1 {
            Ok((Item::BulkString(None), rest))
        } else if n < 0 || n > MAX_BULK_STR_SIZE {
            Err(ProtoError::InvalidBulkStringSize)
        } else {
            match payload_of(rest, n as nat) {
                Ok((bytes, left)) => Ok((Item::BulkString(Some(bytes)), left)),
                Err(e) => Err(e),
            }
        },
    }
}

/// The number of items that the header of an array declares; `None` for
/// the null array.
pub open spec fn array_len(tail: Seq<u8>) -> Result<Option<nat>, ProtoError> {
    match parsed(tail, i64::MIN as int, i64::MAX as int) {
        None => Err(ProtoError::InvalidArraySize),
        Some(n) => if n == -1 {
            Ok(None)
        } else if n < 0 || n > MAX_ARRAY_SIZE {
            Err(ProtoError::InvalidArraySize)
        } else {
            Ok(Some(n as nat))
        },
    }
}

/// The frame at the front of a stream, read at a depth of nesting, and
/// what follows it.
pub open spec fn item_of(s: Seq<u8>, depth: nat) -> Result<(Item, Seq<u8>), ProtoError>
    decreases DEPTH_LIMIT + 1 - depth, 0nat,
{
    if depth > DEPTH_LIMIT {
        Err(ProtoError::ExceededDepthLimit)
    } else {
        match header_of(s) {
            Err(e) => Err(e),
            Ok((sym, tail, rest)) => if sym == RespSym::SimpleString.ascii() {
                Ok((Item::SimpleString(tail), rest))
            } else if sym == RespSym::Error.ascii() {
                Ok((Item::Error(tail), rest))
            } else if sym == RespSym::Integer.ascii() {
                match parsed(tail, i64::MIN as int, i64::MAX as int) {
                    Some(n) => Ok((Item::Integer(n as i64), rest)),
                    None => Err(ProtoError::InvalidInteger),
                }
            } else if sym == RespSym::BulkString.ascii() {
                bulk_item(tail, rest)
            } else if sym == RespSym::Array.ascii() {
                match array_len(tail) {
                    Err(e) => Err(e),
                    Ok(None) => Ok((Item::Array(None), rest)),
                    Ok(Some(count)) => match items_of(rest, depth + 1, count) {
                        Err(e) => Err(e),
                        Ok((items, left)) => Ok((Item::Array(Some(items)), left)),
                    },
                }
            } else {
                Err(ProtoError::UnsupportedSymbol(sym as char))
            },
        }
    }
}

/// The `count` frames at the front of a stream, each read at a depth of
/// nesting, and what follows them.
pub open spec fn items_of(s: Seq<u8>, depth: nat, count: nat) -> Result<
    (Seq<Item>, Seq<u8>),
    ProtoError,
>
    decreases DEPTH_LIMIT + 1 - depth, 1 + count,
{
    if count == 0 {
        Ok((Seq::empty(), s))
    } else if depth > DEPTH_LIMIT {
        Err(ProtoError::ExceededDepthLimit)
    } else {
        match item_of(s, depth) {
            Err(e) => Err(e),
            Ok((first, rest)) => match items_of(rest, depth, (count - 1) as nat) {
                Err(e) => Err(e),
                Ok((others, left)) => Ok((seq![first] + others, left)),
            },
        }
    }
}

/// What is known of a sequence of frames once some of them are read: the
/// ones that are read go before the ones that are still to come.
pub open spec fn items_before(
    done: Seq<Item>,
    coming: Result<(Seq<Item>, Seq<u8>), ProtoError>,
) -> Result<(Seq<Item>, Seq<u8>), ProtoError> {
    match coming {
        Ok((others, left)) => Ok((done + others, left)),
        Err(e) => Err(e),
    }
}

/// Reads one frame from the front of a stream, at a depth of nesting.
fn do_decode(stream: &mut &[u8], depth: usize) -> (r: ProtoResult<RespVal>)
    ensures
        match r {
            Ok(value) => item_of(old(stream)@, depth as nat) == Ok::<(Item, Seq<u8>), ProtoError>(
                (value@, final(stream)@),
            ),
            Err(e) => item_of(old(stream)@, depth as nat) == Err::<(Item, Seq<u8>), ProtoError>(e),
        },
    decreases DEPTH_LIMIT + 1 - depth, 1nat,
{
    if depth > DEPTH_LIMIT {
        return Err(ProtoError::ExceededDepthLimit);
    }
    let (sym, tail) = match read_header(stream) {
        Ok(header) => header,
        Err(e) => {
            return Err(e);
        },
    };
    match RespSym::from_ascii(sym) {
        Some(RespSym::SimpleString) => Ok(RespVal::SimpleString(ByteString::from_vec(tail))),
        Some(RespSym::Error) => Ok(RespVal::Error(ByteString::from_vec(tail))),
        Some(RespSym::Integer) => match from_bytes::<i64>(tail.as_slice()) {
            Ok(n) => Ok(RespVal::Integer(n)),
            Err(_) => Err(ProtoError::InvalidInteger),
        },
        Some(RespSym::BulkString) => {
            let len: i64 = match from_bytes::<i64>(tail.as_slice()) {
                Ok(n) => n,
                Err(_) => {
                    return Err(ProtoError::InvalidBulkStringSize);
                },
            };
            if len == -1 {
                return Ok(RespVal::BulkString(None));
            }
            if len < 0 || len > MAX_BULK_STR_SIZE as i64 {
                return Err(ProtoError::InvalidBulkStringSize);
            }
            match read_bulk_string(stream, len as usize) {
                Ok(bytes) => Ok(RespVal::BulkString(Some(bytes))),
                Err(e) => Err(e),
            }
        },
        Some(RespSym::Array) => {
            let len: i64 = match from_bytes::<i64>(tail.as_slice()) {
                Ok(n) => n,
                Err(_) => {
                    return Err(ProtoError::InvalidArraySize);
                },
            };
            if len == -1 {
                return Ok(RespVal::Array(None));
            }
            if len < 0 || len > MAX_ARRAY_SIZE as i64 {
                return Err(ProtoError::InvalidArraySize);
            }
            match read_array(stream, len as usize, depth) {
                Ok(values) => {
                    proof {
                        lemma_array_view(values);
                    }
                    Ok(RespVal::Array(Some(values)))
                },
                Err(e) => Err(e),
            }
        },
        None => Err(ProtoError::UnsupportedSymbol(symbol_char(sym))),
    }
}

/// Reads the `len` items of an array that stands at a depth of nesting.
fn read_array(stream: &mut &[u8], len: usize, depth: usize) -> (r: ProtoResult<Vec<RespVal>>)
    requires
        depth <= DEPTH_LIMIT,
    ensures
        match r {
            Ok(values) => items_of(old(stream)@, (depth + 1) as nat, len as nat) == Ok::<
                (Seq<Item>, Seq<u8>),
                ProtoError,
            >((items_view(values@), final(stream)@)),
            Err(e) => items_of(old(stream)@, (depth + 1) as nat, len as nat) == Err::<
                (Seq<Item>, Seq<u8>),
                ProtoError,
            >(e),
        },
    decreases DEPTH_LIMIT + 1 - depth, 0nat,
{
    let mut elements: Vec<RespVal> = Vec::new();
    let mut i: usize = 0;
    assert(items_view(elements@) =~= Seq::<Item>::empty());
    assert(Seq::<Item>::empty() + Seq::<Item>::empty() =~= Seq::<Item>::empty());
    while i < len
        invariant
            i <= len,
            depth <= DEPTH_LIMIT,
            elements@.len() == i,
            items_of(old(stream)@, (depth + 1) as nat, len as nat) == items_before(
                items_view(elements@),
                items_of(stream@, (depth + 1) as nat, (len - i) as nat),
            ),
        decreases len - i,
    {
        let ghost before = items_view(elements@);
        let value = match do_decode(stream, depth + 1) {
            Ok(value) => value,
            Err(e) => {
                return Err(e);
            },
        };
        proof {
            assert(items_view(elements@.push(value)) =~= before.push(value@));
            let coming = items_of(stream@, (depth + 1) as nat, (len - i - 1) as nat);
            match coming {
                Ok((others, left)) => {
                    assert(before + (seq![value@] + others) =~= before.push(value@) + others);
                },
                Err(_) => {},
            }
        }
        elements.push(value);
        i += 1;
    }
    proof {
        let done = items_view(elements@);
        assert(done + Seq::<Item>::empty() =~= done);
    }
    Ok(elements)
}

/// Reads one frame from the front of the given bytes.
pub fn decode(stream: &[u8]) -> (r: ProtoResult<RespVal>)
    ensures
        match r {
            Ok(value) => item_of(stream@, 0) matches Ok((item, _)) && item == value@,
            Err(e) => item_of(stream@, 0) == Err::<(Item, Seq<u8>), ProtoError>(e),
        },
{
    let mut rest: &[u8] = stream;
    do_decode(&mut rest, 0)
}

} // verus!
