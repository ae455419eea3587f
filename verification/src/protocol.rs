//! The wire protocol, read from bytes in memory: lines ended by CR LF,
//! frames introduced by a tag byte, and the request, which is an array of
//! bulk strings.

pub mod builder;
pub mod decode;
pub mod errors;
pub mod laws;

pub use errors::{ProtoError, ProtoResult};

use crate::byte_string::from_bytes::{from_bytes, parsed};
use crate::byte_string::{extend_bytes, slice_to_owned, ByteString};
use crate::response::{CR, LF};
use vstd::prelude::*;
use vstd::slice::slice_subrange;

verus! {

/// The most items that an array may declare.
pub const MAX_ARRAY_SIZE: usize = 1024 * 1024;

/// The most bytes that a bulk string may declare.
pub const MAX_BULK_STR_SIZE: usize = 512 * 1024 * 1024;

/// The most bytes that a line may take, its CR LF included.
pub const MAX_LINE_LENGTH: usize = 64 * 1024;

/// The tag of an array.
pub const ARRAY_TAG: u8 = 0x2a;

/// The tag of a bulk string.
pub const BULK_TAG: u8 = 0x24;

/// How many bytes a read of one line takes from a stream: up to the first
/// LF and with it, but no more than `limit`, and no more than there are.
pub open spec fn line_span(s: Seq<u8>, limit: nat) -> nat
    decreases limit,
{
    if s.len() == 0 || limit == 0 {
        0
    } else if s[0] == LF {
        1
    } else {
        1 + line_span(s.skip(1), (limit - 1) as nat)
    }
}

/// The line that the bytes taken by one read hold, without its CR LF, or
/// what is wrong with them.
pub open spec fn checked_line(raw: Seq<u8>) -> Result<Seq<u8>, ProtoError> {
    if raw.len() == 0 {
        Err(ProtoError::ConnectionClosed)
    } else if raw.len() < 2 {
        Err(ProtoError::InvalidTerminator)
    } else if raw[raw.len() - 2] != CR || raw[raw.len() - 1] != LF {
        if raw.len() == MAX_LINE_LENGTH {
            Err(ProtoError::ExceededMaxLineLength)
        } else {
            Err(ProtoError::InvalidTerminator)
        }
    } else {
        Ok(raw.take(raw.len() - 2))
    }
}

/// The first line of a stream and what follows it.
pub open spec fn line_of(s: Seq<u8>) -> Result<(Seq<u8>, Seq<u8>), ProtoError> {
    let n = line_span(s, MAX_LINE_LENGTH as nat) as int;
    match checked_line(s.take(n)) {
        Ok(line) => Ok((line, s.skip(n))),
        Err(e) => Err(e),
    }
}

/// Checks the bytes that one read of a line took: the line without its
/// CR LF, or what is wrong with it.
pub fn check_line(raw: &[u8]) -> (r: ProtoResult<&[u8]>)
    ensures
        match r {
            Ok(line) => checked_line(raw@) == Ok::<Seq<u8>, ProtoError>(line@),
            Err(e) => checked_line(raw@) == Err::<Seq<u8>, ProtoError>(e),
        },
{
    let n = raw.len();
    if n == 0 {
        return Err(ProtoError::ConnectionClosed);
    }
    if n < 2 {
        return Err(ProtoError::InvalidTerminator);
    }
    if raw[n - 2] != CR || raw[n - 1] != LF {
        if n == MAX_LINE_LENGTH {
            return Err(ProtoError::ExceededMaxLineLength);
        }
        return Err(ProtoError::InvalidTerminator);
    }
    Ok(slice_subrange(raw, 0, n - 2))
}

/// How many bytes a read of one line takes from a stream.
fn span_of_line(stream: &[u8]) -> (n: usize)
    ensures
        n == line_span(stream@, MAX_LINE_LENGTH as nat),
        n <= stream@.len(),
{
    let mut n: usize = 0;
    assert(stream@.skip(0) =~= stream@);
    while n < stream.len() && n < MAX_LINE_LENGTH
        invariant
            n <= stream.len(),
            n <= MAX_LINE_LENGTH,
            line_span(stream@, MAX_LINE_LENGTH as nat) == n + line_span(
                stream@.skip(n as int),
                (MAX_LINE_LENGTH - n) as nat,
            ),
        decreases stream.len() - n,
    {
        let ghost rest = stream@.skip(n as int);
        assert(rest[0] == stream@[n as int]);
        assert(rest.skip(1) =~= stream@.skip(n + 1));
        if stream[n] == LF {
            return n + 1;
        }
        n += 1;
    }
    n
}

/// Reads one line from the front of a stream into a buffer, without its
/// CR LF. Where the line is refused the buffer gets the bytes that were
/// read.
pub fn read_line(stream: &mut &[u8], buffer: &mut Vec<u8>) -> (r: ProtoResult<()>)
    ensures
        final(stream)@ == old(stream)@.skip(line_span(old(stream)@, MAX_LINE_LENGTH as nat) as int),
        match r {
            Ok(_) => line_of(old(stream)@) matches Ok((line, rest)) && final(buffer)@ == old(buffer)@ + line && final(stream)@ == rest,
            Err(e) => line_of(old(stream)@) == Err::<(Seq<u8>, Seq<u8>), ProtoError>(e) && final(buffer)@ == old(buffer)@ + old(stream)@.take(
                line_span(old(stream)@, MAX_LINE_LENGTH as nat) as int,
            ),
        },
{
    let whole: &[u8] = *stream;
    assert(whole@.skip(0) =~= whole@);
    let n = span_of_line(whole);
    let raw = slice_subrange(whole, 0, n);
    *stream = slice_subrange(whole, n, whole.len());
    match check_line(raw) {
        Ok(line) => {
            extend_bytes(buffer, line);
            Ok(())
        },
        Err(e) => {
            extend_bytes(buffer, raw);
            Err(e)
        },
    }
}

/// The tag of the first line of a stream, the rest of the line, and what
/// follows the line.
pub open spec fn header_of(s: Seq<u8>) -> Result<(u8, Seq<u8>, Seq<u8>), ProtoError> {
    match line_of(s) {
        Err(e) => Err(e),
        Ok((line, rest)) => if line.len() == 0 {
            Err(ProtoError::MissingSymbol)
        } else {
            Ok((line[0], line.skip(1), rest))
        },
    }
}

/// Splits a line into its tag and what follows the tag.
pub fn split_header(line: &[u8]) -> (r: ProtoResult<(u8, &[u8])>)
    ensures
        match r {
            Ok((sym, tail)) => line@.len() > 0 && sym == line@[0] && tail@ == line@.skip(1),
            Err(e) => line@.len() == 0 && e == ProtoError::MissingSymbol,
        },
{
    if line.len() == 0 {
        return Err(ProtoError::MissingSymbol);
    }
    Ok((line[0], slice_subrange(line, 1, line.len())))
}

/// Reads the header of a frame from the front of a stream: its tag and the
/// rest of its line.
pub fn read_header(stream: &mut &[u8]) -> (r: ProtoResult<(u8, Vec<u8>)>)
    ensures
        match r {
            Ok((sym, tail)) => header_of(old(stream)@) == Ok::<
                (u8, Seq<u8>, Seq<u8>),
                ProtoError,
            >((sym, tail@, final(stream)@)),
            Err(e) => header_of(old(stream)@) == Err::<(u8, Seq<u8>, Seq<u8>), ProtoError>(e),
        },
{
    let mut buffer: Vec<u8> = Vec::new();
    match read_line(stream, &mut buffer) {
        Ok(_) => {},
        Err(e) => {
            return Err(e);
        },
    }
    match split_header(buffer.as_slice()) {
        Ok((sym, tail)) => Ok((sym, slice_to_owned(tail))),
        Err(e) => Err(e),
    }
}

/// The byte as the character of the same number.
pub fn symbol_char(sym: u8) -> (c: char)
    ensures
        c as u32 == sym as u32,
{
    sym as char
}

/// The number of items that the header of a request declares.
pub open spec fn request_size(tail: Seq<u8>) -> Result<nat, ProtoError> {
    match parsed(tail, i64::MIN as int, i64::MAX as int) {
        None => Err(ProtoError::InvalidArraySize),
        Some(n) => if n == 0 || n == -1 {
            Err(ProtoError::EmptyRequest)
        } else if n < 0 || n > MAX_ARRAY_SIZE {
            Err(ProtoError::InvalidArraySize)
        } else {
            Ok(n as nat)
        },
    }
}

/// Reads the number of items from the header of a request.
pub fn array_size(tail: &[u8]) -> (r: ProtoResult<usize>)
    ensures
        match r {
            Ok(n) => request_size(tail@) == Ok::<nat, ProtoError>(n as nat) && 0 < n
                <= MAX_ARRAY_SIZE,
            Err(e) => request_size(tail@) == Err::<nat, ProtoError>(e),
        },
{
    let len: i64 = match from_bytes::<i64>(tail) {
        Ok(n) => n,
        Err(_) => {
            return Err(ProtoError::InvalidArraySize);
        },
    };
    if len == 0 || len == -1 {
        return Err(ProtoError::EmptyRequest);
    }
    if len < 0 || len > MAX_ARRAY_SIZE as i64 {
        return Err(ProtoError::InvalidArraySize);
    }
    Ok(len as usize)
}

/// The number of bytes that the header of a bulk string declares.
pub open spec fn bulk_size(tail: Seq<u8>) -> Result<nat, ProtoError> {
    match parsed(tail, i64::MIN as int, i64::MAX as int) {
        None => Err(ProtoError::InvalidBulkStringSize),
        Some(n) => if n < 0 || n > MAX_BULK_STR_SIZE {
            Err(ProtoError::InvalidBulkStringSize)
        } else {
            Ok(n as nat)
        },
    }
}

/// Reads the number of bytes from the header of a bulk string.
pub fn bulk_string_size(tail: &[u8]) -> (r: ProtoResult<usize>)
    ensures
        match r {
            Ok(n) => bulk_size(tail@) == Ok::<nat, ProtoError>(n as nat) && n <= MAX_BULK_STR_SIZE,
            Err(e) => bulk_size(tail@) == Err::<nat, ProtoError>(e),
        },
{
    let len: i64 = match from_bytes::<i64>(tail) {
        Ok(n) => n,
        Err(_) => {
            return Err(ProtoError::InvalidBulkStringSize);
        },
    };
    if len < 0 || len > MAX_BULK_STR_SIZE as i64 {
        return Err(ProtoError::InvalidBulkStringSize);
    }
    Ok(len as usize)
}

/// The payload of a bulk string of `len` bytes at the front of a stream,
/// and what follows its CR LF.
pub open spec fn payload_of(s: Seq<u8>, len: nat) -> Result<(Seq<u8>, Seq<u8>), ProtoError> {
    if s.len() < len + 2 {
        Err(ProtoError::UnexpectedEof)
    } else if s[len as int] != CR || s[len as int + 1] != LF {
        Err(ProtoError::InvalidTerminator)
    } else {
        Ok((s.take(len as int), s.skip(len as int + 2)))
    }
}

/// Takes the payload of a bulk string of `len` bytes out of the bytes that
/// were read for it, which are the payload and its CR LF.
pub fn check_payload(raw: &[u8], len: usize) -> (r: ProtoResult<ByteString>)
    requires
        len <= MAX_BULK_STR_SIZE,
    ensures
        match r {
            Ok(value) => payload_of(raw@, len as nat) matches Ok((bytes, _)) && value@ == bytes,
            Err(e) => payload_of(raw@, len as nat) == Err::<(Seq<u8>, Seq<u8>), ProtoError>(e),
        },
{
    if raw.len() < len + 2 {
        return Err(ProtoError::UnexpectedEof);
    }
    if raw[len] != CR || raw[len + 1] != LF {
        return Err(ProtoError::InvalidTerminator);
    }
    Ok(ByteString::from_slice(slice_subrange(raw, 0, len)))
}

/// Reads the payload of a bulk string of `len` bytes from the front of a
/// stream, with the CR LF behind it.
pub fn read_bulk_string(stream: &mut &[u8], len: usize) -> (r: ProtoResult<ByteString>)
    requires
        len <= MAX_BULK_STR_SIZE,
    ensures
        match r {
            Ok(value) => payload_of(old(stream)@, len as nat) == Ok::<
                (Seq<u8>, Seq<u8>),
                ProtoError,
            >((value@, final(stream)@)),
            Err(e) => payload_of(old(stream)@, len as nat) == Err::<
                (Seq<u8>, Seq<u8>),
                ProtoError,
            >(e),
        },
{
    let whole: &[u8] = *stream;
    match check_payload(whole, len) {
        Ok(value) => {
            *stream = slice_subrange(whole, len + 2, whole.len());
            Ok(value)
        },
        Err(e) => Err(e),
    }
}

/// The bulk string at the front of a stream, and what follows it.
pub open spec fn bulk_of(s: Seq<u8>) -> Result<(Seq<u8>, Seq<u8>), ProtoError> {
    match header_of(s) {
        Err(e) => Err(e),
        Ok((sym, tail, rest)) => if sym != BULK_TAG {
            Err(ProtoError::UnsupportedSymbol(sym as char))
        } else {
            match bulk_size(tail) {
                Err(e) => Err(e),
                Ok(len) => payload_of(rest, len),
            }
        },
    }
}

/// The `count` bulk strings at the front of a stream, and what follows
/// them.
pub open spec fn bulks_of(s: Seq<u8>, count: nat) -> Result<(Seq<Seq<u8>>, Seq<u8>), ProtoError>
    decreases count,
{
    if count == 0 {
        Ok((Seq::empty(), s))
    } else {
        match bulk_of(s) {
            Err(e) => Err(e),
            Ok((first, rest)) => match bulks_of(rest, (count - 1) as nat) {
                Err(e) => Err(e),
                Ok((others, left)) => Ok((seq![first] + others, left)),
            },
        }
    }
}

/// The request at the front of a stream, which is an array of bulk
/// strings, and what follows it.
pub open spec fn request_of(s: Seq<u8>) -> Result<(Seq<Seq<u8>>, Seq<u8>), ProtoError> {
    match header_of(s) {
        Err(e) => Err(e),
        Ok((sym, tail, rest)) => if sym != ARRAY_TAG {
            Err(ProtoError::UnsupportedSymbol(sym as char))
        } else {
            match request_size(tail) {
                Err(e) => Err(e),
                Ok(count) => bulks_of(rest, count),
            }
        },
    }
}

/// A read of `count` bulk strings gives that many.
pub proof fn lemma_bulks_len(s: Seq<u8>, count: nat)
    ensures
        bulks_of(s, count) matches Ok((items, _)) ==> items.len() == count,
    decreases count,
{
    if count > 0 {
        match bulk_of(s) {
            Ok((first, rest)) => {
                lemma_bulks_len(rest, (count - 1) as nat);
            },
            Err(_) => {},
        }
    }
}

/// A request has at least one item and no more than an array may declare.
pub proof fn lemma_request_len(s: Seq<u8>)
    ensures
        request_of(s) matches Ok((items, _)) ==> 0 < items.len() <= MAX_ARRAY_SIZE,
{
    match header_of(s) {
        Ok((sym, tail, rest)) => {
            match request_size(tail) {
                Ok(count) => {
                    lemma_bulks_len(rest, count);
                },
                Err(_) => {},
            }
        },
        Err(_) => {},
    }
}

/// What is known of a sequence of bulk strings once some of them are read:
/// the ones that are read go before the ones that are still to come.
pub open spec fn read_before(
    done: Seq<Seq<u8>>,
    coming: Result<(Seq<Seq<u8>>, Seq<u8>), ProtoError>,
) -> Result<(Seq<Seq<u8>>, Seq<u8>), ProtoError> {
    match coming {
        Ok((others, left)) => Ok((done + others, left)),
        Err(e) => Err(e),
    }
}

/// Reads one bulk string from the front of a stream.
pub fn read_bulk(stream: &mut &[u8]) -> (r: ProtoResult<ByteString>)
    ensures
        match r {
            Ok(value) => bulk_of(old(stream)@) == Ok::<(Seq<u8>, Seq<u8>), ProtoError>(
                (value@, final(stream)@),
            ),
            Err(e) => bulk_of(old(stream)@) == Err::<(Seq<u8>, Seq<u8>), ProtoError>(e),
        },
{
    let (sym, tail) = match read_header(stream) {
        Ok(header) => header,
        Err(e) => {
            return Err(e);
        },
    };
    if sym != BULK_TAG {
        return Err(ProtoError::UnsupportedSymbol(symbol_char(sym)));
    }
    let len = match bulk_string_size(tail.as_slice()) {
        Ok(len) => len,
        Err(e) => {
            return Err(e);
        },
    };
    read_bulk_string(stream, len)
}

/// Reads `len` bulk strings from the front of a stream.
pub fn read_array(stream: &mut &[u8], len: usize) -> (r: ProtoResult<Vec<ByteString>>)
    ensures
        match r {
            Ok(elements) => bulks_of(old(stream)@, len as nat) == Ok::<
                (Seq<Seq<u8>>, Seq<u8>),
                ProtoError,
            >((crate::byte_string::views(elements@), final(stream)@)),
            Err(e) => bulks_of(old(stream)@, len as nat) == Err::<
                (Seq<Seq<u8>>, Seq<u8>),
                ProtoError,
            >(e),
        },
{
    let mut elements: Vec<ByteString> = Vec::new();
    let mut i: usize = 0;
    assert(Seq::<Seq<u8>>::empty() + Seq::<Seq<u8>>::empty() =~= Seq::<Seq<u8>>::empty());
    while i < len
        invariant
            i <= len,
            elements@.len() == i,
            bulks_of(old(stream)@, len as nat) == read_before(
                crate::byte_string::views(elements@),
                bulks_of(stream@, (len - i) as nat),
            ),
        decreases len - i,
    {
        let ghost before = crate::byte_string::views(elements@);
        let ghost here = stream@;
        let value = match read_bulk(stream) {
            Ok(value) => value,
            Err(e) => {
                return Err(e);
            },
        };
        proof {
            crate::byte_string::lemma_views_edit(elements@, value, 0);
            let coming = bulks_of(stream@, (len - i - 1) as nat);
            match coming {
                Ok((others, left)) => {
                    assert(before + (seq![value@] + others) =~= before.push(value@) + others);
                },
                Err(_) => {},
            }
        }
        elements.push(value);
        i += 1;
    }
    proof {
        let done = crate::byte_string::views(elements@);
        assert(done + Seq::<Seq<u8>>::empty() =~= done);
    }
    Ok(elements)
}

/// How far the reading of a request has come: the number of items that
/// its header declares, once the header is read; the length of the bulk
/// string whose header is read and whose payload is not; and the items read
/// so far.
pub struct Progress {
    pub expected: Option<nat>,
    pub pending: Option<nat>,
    pub items: Seq<Seq<u8>>,
}

/// What the decoder of requests needs next from whoever reads the stream.
#[derive(Debug, PartialEq, Eq)]
pub enum Want {
    /// One line: the bytes up to the first LF and with it, but no more than
    /// the longest line.
    Line,
    /// That many bytes: the payload of a bulk string and its CR LF.
    Payload(usize),
    /// Nothing: the request is read.
    Nothing,
}

/// What is left to do for a request that is partly read, on what is left
/// of the stream.
pub open spec fn rest_of_request(p: Progress, s: Seq<u8>) -> Result<
    (Seq<Seq<u8>>, Seq<u8>),
    ProtoError,
> {
    match p.expected {
        None => request_of(s),
        Some(count) => match p.pending {
            None => read_before(p.items, bulks_of(s, (count - p.items.len()) as nat)),
            Some(len) => match payload_of(s, len) {
                Err(e) => Err(e),
                Ok((bytes, rest)) => read_before(
                    p.items.push(bytes),
                    bulks_of(rest, (count - p.items.len() - 1) as nat),
                ),
            },
        },
    }
}

/// The progress after a line is read, given the bytes that the read took.
pub open spec fn after_line(p: Progress, raw: Seq<u8>) -> Result<Progress, ProtoError> {
    match checked_line(raw) {
        Err(e) => Err(e),
        Ok(text) => if text.len() == 0 {
            Err(ProtoError::MissingSymbol)
        } else if p.expected is None {
            if text[0] != ARRAY_TAG {
                Err(ProtoError::UnsupportedSymbol(text[0] as char))
            } else {
                match request_size(text.skip(1)) {
                    Err(e) => Err(e),
                    Ok(count) => Ok(Progress { expected: Some(count), ..p }),
                }
            }
        } else {
            if text[0] != BULK_TAG {
                Err(ProtoError::UnsupportedSymbol(text[0] as char))
            } else {
                match bulk_size(text.skip(1)) {
                    Err(e) => Err(e),
                    Ok(len) => Ok(Progress { pending: Some(len), ..p }),
                }
            }
        },
    }
}

/// The progress after the payload of a bulk string is read, given the
/// bytes that the read took.
pub open spec fn after_payload(p: Progress, raw: Seq<u8>) -> Result<Progress, ProtoError> {
    match payload_of(raw, p.pending->Some_0) {
        Err(e) => Err(e),
        Ok((bytes, _)) => Ok(Progress { pending: None, items: p.items.push(bytes), ..p }),
    }
}

/// The decoder of requests, for a stream that someone else reads: it says
/// what it needs next, and takes what was read.
#[derive(Debug)]
pub struct RequestDecoder {
    expected: Option<usize>,
    pending: Option<usize>,
    items: Vec<ByteString>,
}

impl View for RequestDecoder {
    type V = Progress;

    closed spec fn view(&self) -> Progress {
        Progress {
            expected: match self.expected {
                Some(n) => Some(n as nat),
                None => None,
            },
            pending: match self.pending {
                Some(n) => Some(n as nat),
                None => None,
            },
            items: crate::byte_string::views(self.items@),
        }
    }
}

impl RequestDecoder {
    /// The decoder is at a point that reading a request can reach: a bulk
    /// string is pending only once the header is read and while items are
    /// missing, and no more items are read than the header declares.
    pub open spec fn wf(&self) -> bool {
        let p = self@;
        &&& p.expected matches Some(count) ==> p.items.len() <= count && 0 < count
            <= MAX_ARRAY_SIZE
        &&& p.expected is None ==> p.items.len() == 0 && p.pending is None
        &&& p.pending matches Some(len) ==> len <= MAX_BULK_STR_SIZE && (
        p.expected matches Some(count) && p.items.len() < count)
    }

    /// The whole request is read.
    pub open spec fn complete(&self) -> bool {
        self@.expected matches Some(count) && self@.items.len() == count
    }

    /// A decoder that has read nothing.
    pub fn new() -> (r: Self)
        ensures
            r.wf(),
            r@ == (Progress { expected: None, pending: None, items: Seq::empty() }),
    {
        let r = RequestDecoder { expected: None, pending: None, items: Vec::new() };
        assert(r@.items =~= Seq::<Seq<u8>>::empty());
        r
    }

    /// What the decoder needs next.
    pub fn want(&self) -> (r: Want)
        requires
            self.wf(),
        ensures
            match r {
                Want::Nothing => self.complete(),
                Want::Payload(n) => !self.complete() && (self@.pending matches Some(len) && n
                    == len + 2),
                Want::Line => !self.complete() && self@.pending is None,
            },
    {
        match self.expected {
            None => Want::Line,
            Some(count) => if self.items.len() == count {
                Want::Nothing
            } else {
                match self.pending {
                    Some(len) => Want::Payload(len + 2),
                    None => Want::Line,
                }
            },
        }
    }

    /// Takes the bytes that a read of one line took.
    pub fn line(&mut self, raw: &[u8]) -> (r: ProtoResult<()>)
        requires
            old(self).wf(),
            !old(self).complete(),
            old(self)@.pending is None,
        ensures
            final(self).wf(),
            match r {
                Ok(_) => after_line(old(self)@, raw@) == Ok::<Progress, ProtoError>(final(self)@),
                Err(e) => after_line(old(self)@, raw@) == Err::<Progress, ProtoError>(e)
                    && final(self)@ == old(self)@,
            },
    {
        let text = match check_line(raw) {
            Ok(text) => text,
            Err(e) => {
                return Err(e);
            },
        };
        let (sym, tail) = match split_header(text) {
            Ok(header) => header,
            Err(e) => {
                return Err(e);
            },
        };
        if self.expected.is_none() {
            if sym != ARRAY_TAG {
                return Err(ProtoError::UnsupportedSymbol(symbol_char(sym)));
            }
            match array_size(tail) {
                Ok(count) => {
                    self.expected = Some(count);
                    Ok(())
                },
                Err(e) => Err(e),
            }
        } else {
            if sym != BULK_TAG {
                return Err(ProtoError::UnsupportedSymbol(symbol_char(sym)));
            }
            match bulk_string_size(tail) {
                Ok(len) => {
                    self.pending = Some(len);
                    Ok(())
                },
                Err(e) => Err(e),
            }
        }
    }

    /// Takes the bytes that a read of the payload of a bulk string took:
    /// the payload and its CR LF, or fewer where the stream has ended.
    pub fn payload(&mut self, raw: &[u8]) -> (r: ProtoResult<()>)
        requires
            old(self).wf(),
            old(self)@.pending is Some,
        ensures
            final(self).wf(),
            match r {
                Ok(_) => after_payload(old(self)@, raw@) == Ok::<Progress, ProtoError>(
                    final(self)@,
                ),
                Err(e) => after_payload(old(self)@, raw@) == Err::<Progress, ProtoError>(e)
                    && final(self)@ == old(self)@,
            },
    {
        let len = match self.pending {
            Some(len) => len,
            None => 0,
        };
        match check_payload(raw, len) {
            Ok(value) => {
                proof {
                    crate::byte_string::lemma_views_edit(self.items@, value, 0);
                }
                self.items.push(value);
                self.pending = None;
                Ok(())
            },
            Err(e) => Err(e),
        }
    }

    /// The arguments of the request that was read.
    pub fn finish(self) -> (r: Vec<ByteString>)
        requires
            self.wf(),
            self.complete(),
        ensures
            crate::byte_string::views(r@) == self@.items,
            0 < r@.len() <= MAX_ARRAY_SIZE,
    {
        assert(crate::byte_string::views(self.items@).len() == self.items@.len());
        self.items
    }
}

/// A line that is read takes the request as far as the decoder says.
pub proof fn lemma_line_advances(p: Progress, s: Seq<u8>)
    requires
        p.pending is None,
        p.expected matches Some(count) ==> p.items.len() < count,
        p.expected is None ==> p.items.len() == 0,
    ensures
        ({
            let n = line_span(s, MAX_LINE_LENGTH as nat) as int;
            match after_line(p, s.take(n)) {
                Ok(next) => rest_of_request(p, s) == rest_of_request(next, s.skip(n)),
                Err(e) => rest_of_request(p, s) == Err::<(Seq<Seq<u8>>, Seq<u8>), ProtoError>(e),
            }
        }),
{
    let n = line_span(s, MAX_LINE_LENGTH as nat) as int;
    match p.expected {
        None => {
            match request_of(s) {
                Ok((items, left)) => {
                    assert(p.items + items =~= items);
                },
                Err(_) => {},
            }
        },
        Some(count) => {
            match bulks_of(s, (count - p.items.len()) as nat) {
                Ok((others, left)) => {
                    let first = bulk_of(s)->Ok_0.0;
                    let rest = bulk_of(s)->Ok_0.1;
                    match bulks_of(rest, (count - p.items.len() - 1) as nat) {
                        Ok((more, _)) => {
                            assert(p.items + (seq![first] + more) =~= p.items.push(first) + more);
                        },
                        Err(_) => {},
                    }
                },
                Err(_) => {},
            }
        },
    }
}

/// A payload that is read takes the request as far as the decoder says.
pub proof fn lemma_payload_advances(p: Progress, s: Seq<u8>)
    requires
        p.pending is Some,
        p.expected matches Some(count) && p.items.len() < count,
    ensures
        ({
            let wanted = p.pending->Some_0 + 2;
            let n = if wanted <= s.len() {
                wanted as int
            } else {
                s.len() as int
            };
            match after_payload(p, s.take(n)) {
                Ok(next) => rest_of_request(p, s) == rest_of_request(next, s.skip(n)),
                Err(e) => rest_of_request(p, s) == Err::<(Seq<Seq<u8>>, Seq<u8>), ProtoError>(e),
            }
        }),
{
    let len = p.pending->Some_0;
    let wanted = len + 2;
    if wanted <= s.len() {
        let raw = s.take(wanted as int);
        assert(raw[len as int] == s[len as int]);
        assert(raw[len as int + 1] == s[len as int + 1]);
        assert(raw.take(len as int) =~= s.take(len as int));
    }
}

/// How many reads a request that is partly read may still take.
pub open spec fn reads_left(p: Progress) -> int {
    match p.expected {
        None => 2 * MAX_ARRAY_SIZE + 2,
        Some(count) => 2 * (count - p.items.len()) + if p.pending is Some {
            0int
        } else {
            1int
        },
    }
}

/// Reads one request from the front of a stream in the steps of the
/// decoder: each read is the one the decoder asks for, and the decoder
/// takes what the read took.
pub fn decode_in_steps(stream: &mut &[u8]) -> (r: ProtoResult<Vec<ByteString>>)
    ensures
        match r {
            Ok(arguments) => request_of(old(stream)@) == Ok::<
                (Seq<Seq<u8>>, Seq<u8>),
                ProtoError,
            >((crate::byte_string::views(arguments@), final(stream)@)),
            Err(e) => request_of(old(stream)@) == Err::<(Seq<Seq<u8>>, Seq<u8>), ProtoError>(e),
        },
{
    let mut decoder = RequestDecoder::new();
    loop
        invariant
            decoder.wf(),
            request_of(old(stream)@) == rest_of_request(decoder@, stream@),
        decreases reads_left(decoder@),
    {
        let whole: &[u8] = *stream;
        match decoder.want() {
            Want::Nothing => {
                proof {
                    assert(decoder@.items + Seq::<Seq<u8>>::empty() =~= decoder@.items);
                }
                return Ok(decoder.finish());
            },
            Want::Line => {
                let n = span_of_line(whole);
                proof {
                    lemma_line_advances(decoder@, whole@);
                }
                match decoder.line(slice_subrange(whole, 0, n)) {
                    Ok(_) => {},
                    Err(e) => {
                        return Err(e);
                    },
                }
                *stream = slice_subrange(whole, n, whole.len());
            },
            Want::Payload(wanted) => {
                let n = if wanted <= whole.len() {
                    wanted
                } else {
                    whole.len()
                };
                proof {
                    lemma_payload_advances(decoder@, whole@);
                }
                match decoder.payload(slice_subrange(whole, 0, n)) {
                    Ok(_) => {},
                    Err(e) => {
                        return Err(e);
                    },
                }
                *stream = slice_subrange(whole, n, whole.len());
            },
        }
    }
}

/// Reads one request from the front of a stream: the arguments, byte for
/// byte as the bulk strings hold them.
pub fn decode_from(stream: &mut &[u8]) -> (r: ProtoResult<Vec<ByteString>>)
    ensures
        match r {
            Ok(arguments) => request_of(old(stream)@) == Ok::<
                (Seq<Seq<u8>>, Seq<u8>),
                ProtoError,
            >((crate::byte_string::views(arguments@), final(stream)@)),
            Err(e) => request_of(old(stream)@) == Err::<(Seq<Seq<u8>>, Seq<u8>), ProtoError>(e),
        },
{
    let (sym, tail) = match read_header(stream) {
        Ok(header) => header,
        Err(e) => {
            return Err(e);
        },
    };
    if sym != ARRAY_TAG {
        return Err(ProtoError::UnsupportedSymbol(symbol_char(sym)));
    }
    let len = match array_size(tail.as_slice()) {
        Ok(len) => len,
        Err(e) => {
            return Err(e);
        },
    };
    read_array(stream, len)
}

/// Reads one request from the front of the given bytes.
pub fn decode(stream: &[u8]) -> (r: ProtoResult<Vec<ByteString>>)
    ensures
        match r {
            Ok(arguments) => request_of(stream@) matches Ok((items, _)) && items
                == crate::byte_string::views(arguments@),
            Err(e) => request_of(stream@) == Err::<(Seq<Seq<u8>>, Seq<u8>), ProtoError>(e),
        },
{
    let mut rest: &[u8] = stream;
    decode_from(&mut rest)
}

} // verus!
