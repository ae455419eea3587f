//! What holds of the codec: a request that is encoded decodes to itself,
//! and a frame that declares too much is refused by its header alone.

use crate::byte_string::from_bytes::{is_digit, parsed};
use crate::decimal::{decimal, decimal_digits, lemma_decimal_digits, lemma_decimal_round_trip};
use crate::protocol::decode::{item_of, Item};
use crate::protocol::{
    bulk_of, bulks_of, header_of, line_of, line_span, request_of, ProtoError, ARRAY_TAG,
    BULK_TAG, MAX_ARRAY_SIZE, MAX_BULK_STR_SIZE, MAX_LINE_LENGTH,
};
use crate::response::{array_frame, bulk_frame, bulk_frames, crlf, line, RespSym, CR, LF};
use vstd::prelude::*;

verus! {

/// A request as it goes over the wire: the header of an array, then each
/// argument as a bulk string.
pub open spec fn encoded_request(argv: Seq<Seq<u8>>) -> Seq<u8> {
    array_frame(argv.len() as int) + bulk_frames(argv)
}

/// Ten to the power of `k`.
pub open spec fn pow10(k: nat) -> nat
    decreases k,
{
    if k == 0 {
        1
    } else {
        10 * pow10((k - 1) as nat)
    }
}

/// A number below ten to the `k` has no more than `k` digits.
pub proof fn lemma_digits_len(n: nat, k: nat)
    requires
        k >= 1,
        n < pow10(k),
    ensures
        decimal_digits(n).len() <= k,
    decreases n,
{
    if n >= 10 {
        assert(k >= 2) by {
            reveal_with_fuel(pow10, 2);
        }
        lemma_digits_len(n / 10, (k - 1) as nat);
    }
}

/// A read of one line from bytes that hold no LF before the place `n`, and
/// an LF at it, takes the bytes up to that place and the LF.
pub proof fn lemma_line_span_found(s: Seq<u8>, limit: nat, n: int)
    requires
        0 <= n < s.len(),
        n < limit,
        s[n] == LF,
        forall|i: int| 0 <= i < n ==> #[trigger] s[i] != LF,
    ensures
        line_span(s, limit) == n + 1,
    decreases n,
{
    if n > 0 {
        let rest = s.skip(1);
        assert(rest[n - 1] == s[n]);
        assert forall|i: int| 0 <= i < n - 1 implies #[trigger] rest[i] != LF by {
            assert(rest[i] == s[i + 1]);
        }
        lemma_line_span_found(rest, (limit - 1) as nat, n - 1);
    }
}

/// A read of one line from bytes that hold no LF within the limit takes
/// as many bytes as the limit allows.
pub proof fn lemma_line_span_full(s: Seq<u8>, limit: nat)
    requires
        limit <= s.len(),
        forall|i: int| 0 <= i < limit ==> #[trigger] s[i] != LF,
    ensures
        line_span(s, limit) == limit,
    decreases limit,
{
    if limit > 0 {
        let rest = s.skip(1);
        assert(s[0] != LF);
        assert forall|i: int| 0 <= i < limit - 1 implies #[trigger] rest[i] != LF by {
            assert(rest[i] == s[i + 1]);
        }
        lemma_line_span_full(rest, (limit - 1) as nat);
    }
}

/// A line that goes on past the longest line accepted is refused as such,
/// whatever comes after it.
pub proof fn lemma_long_line_refused(s: Seq<u8>)
    requires
        s.len() >= MAX_LINE_LENGTH,
        forall|i: int| 0 <= i < MAX_LINE_LENGTH ==> #[trigger] s[i] != LF,
    ensures
        line_of(s) == Err::<(Seq<u8>, Seq<u8>), ProtoError>(ProtoError::ExceededMaxLineLength),
        header_of(s) == Err::<(u8, Seq<u8>, Seq<u8>), ProtoError>(
            ProtoError::ExceededMaxLineLength,
        ),
        request_of(s) == Err::<(Seq<Seq<u8>>, Seq<u8>), ProtoError>(
            ProtoError::ExceededMaxLineLength,
        ),
        item_of(s, 0) == Err::<(Item, Seq<u8>), ProtoError>(ProtoError::ExceededMaxLineLength),
{
    lemma_line_span_full(s, MAX_LINE_LENGTH as nat);
    let raw = s.take(MAX_LINE_LENGTH as int);
    assert(raw[raw.len() - 1] == s[MAX_LINE_LENGTH - 1]);
}

/// A request whose header declares more items than an array may have is
/// refused by the header alone: what follows the header is not looked at.
pub proof fn lemma_large_array_refused(s: Seq<u8>, tail: Seq<u8>, rest: Seq<u8>, n: int)
    requires
        header_of(s) == Ok::<(u8, Seq<u8>, Seq<u8>), ProtoError>((ARRAY_TAG, tail, rest)),
        parsed(tail, i64::MIN as int, i64::MAX as int) == Some(n),
        n > MAX_ARRAY_SIZE,
    ensures
        request_of(s) == Err::<(Seq<Seq<u8>>, Seq<u8>), ProtoError>(ProtoError::InvalidArraySize),
        item_of(s, 0) == Err::<(Item, Seq<u8>), ProtoError>(ProtoError::InvalidArraySize),
{
}

/// A bulk string whose header declares more bytes than a bulk string may
/// have is refused by the header alone: what follows the header is not
/// looked at.
pub proof fn lemma_large_bulk_refused(s: Seq<u8>, tail: Seq<u8>, rest: Seq<u8>, n: int)
    requires
        header_of(s) == Ok::<(u8, Seq<u8>, Seq<u8>), ProtoError>((BULK_TAG, tail, rest)),
        parsed(tail, i64::MIN as int, i64::MAX as int) == Some(n),
        n > MAX_BULK_STR_SIZE,
    ensures
        bulk_of(s) == Err::<(Seq<u8>, Seq<u8>), ProtoError>(ProtoError::InvalidBulkStringSize),
        item_of(s, 0) == Err::<(Item, Seq<u8>), ProtoError>(ProtoError::InvalidBulkStringSize),
{
}

/// The header line of a frame is read back as its tag and its payload,
/// where the payload holds no LF and the line is not too long.
pub proof fn lemma_header_read_back(sym: RespSym, payload: Seq<u8>, rest: Seq<u8>)
    requires
        payload.len() + 3 <= MAX_LINE_LENGTH,
        forall|i: int| 0 <= i < payload.len() ==> #[trigger] payload[i] != LF,
    ensures
        header_of(line(sym, payload) + rest) == Ok::<(u8, Seq<u8>, Seq<u8>), ProtoError>(
            (sym.ascii(), payload, rest),
        ),
{
    let s = line(sym, payload) + rest;
    let n: int = payload.len() as int + 2;
    assert(s[n] == LF);
    assert(s[n - 1] == CR);
    assert(s[0] == sym.ascii());
    assert forall|i: int| 0 <= i < n implies #[trigger] s[i] != LF by {
        if 0 < i < n - 1 {
            assert(s[i] == payload[i - 1]);
        }
    }
    lemma_line_span_found(s, MAX_LINE_LENGTH as nat, n);
    let raw = s.take(n + 1);
    assert(raw[raw.len() - 2] == CR);
    assert(raw[raw.len() - 1] == LF);
    let text = raw.take(raw.len() - 2);
    assert(text =~= seq![sym.ascii()] + payload);
    assert(text.skip(1) =~= payload);
    assert(s.skip(n + 1) =~= rest);
}

/// The digits of a length that a frame may declare hold no LF and fit a
/// line.
pub proof fn lemma_length_digits(n: nat)
    requires
        n <= MAX_BULK_STR_SIZE,
    ensures
        decimal_digits(n).len() + 3 <= MAX_LINE_LENGTH,
        forall|i: int| 0 <= i < decimal_digits(n).len() ==> #[trigger] decimal_digits(n)[i] != LF,
        decimal(n as int) == decimal_digits(n),
        parsed(decimal_digits(n), i64::MIN as int, i64::MAX as int) == Some(n as int),
{
    assert(n < pow10(9)) by {
        reveal_with_fuel(pow10, 10);
    }
    lemma_digits_len(n, 9);
    lemma_decimal_digits(n);
    lemma_decimal_round_trip(n as int);
    assert forall|i: int| 0 <= i < decimal_digits(n).len() implies #[trigger] decimal_digits(
        n,
    )[i] != LF by {
        assert(is_digit(decimal_digits(n)[i]));
    }
}

/// A bulk string is read back as its bytes.
pub proof fn lemma_bulk_read_back(bytes: Seq<u8>, rest: Seq<u8>)
    requires
        bytes.len() <= MAX_BULK_STR_SIZE,
    ensures
        bulk_of(bulk_frame(bytes) + rest) == Ok::<(Seq<u8>, Seq<u8>), ProtoError>((bytes, rest)),
{
    let digits = decimal_digits(bytes.len());
    let after = bytes + crlf() + rest;
    lemma_length_digits(bytes.len());
    lemma_header_read_back(RespSym::BulkString, digits, after);
    assert(bulk_frame(bytes) + rest =~= line(RespSym::BulkString, digits) + after);
    assert(after[bytes.len() as int] == CR);
    assert(after[bytes.len() as int + 1] == LF);
    assert(after.take(bytes.len() as int) =~= bytes);
    assert(after.skip(bytes.len() as int + 2) =~= rest);
}

/// The bulk strings of a sequence are the first of them, then the others.
pub proof fn lemma_bulk_frames_front(values: Seq<Seq<u8>>)
    requires
        values.len() > 0,
    ensures
        bulk_frames(values) == bulk_frame(values[0]) + bulk_frames(values.skip(1)),
    decreases values.len(),
{
    if values.len() == 1 {
        assert(values.drop_last() =~= Seq::<Seq<u8>>::empty());
        assert(values.skip(1) =~= Seq::<Seq<u8>>::empty());
        assert(bulk_frames(values) =~= bulk_frame(values[0]) + bulk_frames(values.skip(1)));
    } else {
        let front = values.drop_last();
        lemma_bulk_frames_front(front);
        assert(front.skip(1) =~= values.skip(1).drop_last());
        assert(values.skip(1).last() == values.last());
        assert(front[0] == values[0]);
        assert(bulk_frames(values) =~= bulk_frame(values[0]) + bulk_frames(values.skip(1)));
    }
}

/// Bulk strings are read back as their bytes, one after the other.
pub proof fn lemma_bulks_read_back(values: Seq<Seq<u8>>, rest: Seq<u8>)
    requires
        forall|i: int| 0 <= i < values.len() ==> (#[trigger] values[i]).len() <= MAX_BULK_STR_SIZE,
    ensures
        bulks_of(bulk_frames(values) + rest, values.len()) == Ok::<
            (Seq<Seq<u8>>, Seq<u8>),
            ProtoError,
        >((values, rest)),
    decreases values.len(),
{
    if values.len() == 0 {
        assert(bulk_frames(values) + rest =~= rest);
        assert(values =~= Seq::<Seq<u8>>::empty());
    } else {
        let others = values.skip(1);
        lemma_bulk_frames_front(values);
        let after = bulk_frames(others) + rest;
        assert(bulk_frames(values) + rest =~= bulk_frame(values[0]) + after);
        lemma_bulk_read_back(values[0], after);
        assert forall|i: int| 0 <= i < others.len() implies (#[trigger] others[i]).len()
            <= MAX_BULK_STR_SIZE by {
            assert(others[i] == values[i + 1]);
        }
        lemma_bulks_read_back(others, rest);
        assert(seq![values[0]] + others =~= values);
    }
}

/// A request that is encoded decodes to itself, and leaves what follows it
/// for the next read: for every request of at least one argument, of no
/// more arguments than an array may have, each of no more bytes than a
/// bulk string may have.
pub proof fn lemma_request_round_trip(argv: Seq<Seq<u8>>, rest: Seq<u8>)
    requires
        1 <= argv.len() <= MAX_ARRAY_SIZE,
        forall|i: int| 0 <= i < argv.len() ==> (#[trigger] argv[i]).len() <= MAX_BULK_STR_SIZE,
    ensures
        request_of(encoded_request(argv) + rest) == Ok::<(Seq<Seq<u8>>, Seq<u8>), ProtoError>(
            (argv, rest),
        ),
{
    let digits = decimal_digits(argv.len());
    let after = bulk_frames(argv) + rest;
    lemma_length_digits(argv.len());
    lemma_header_read_back(RespSym::Array, digits, after);
    assert(encoded_request(argv) + rest =~= line(RespSym::Array, digits) + after);
    lemma_bulks_read_back(argv, rest);
}

} // verus!
