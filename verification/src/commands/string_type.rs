//! The commands on strings and counters.

use crate::byte_string::from_bytes::parsed;
use crate::byte_string::{lower_bytes, views, ByteString};
use crate::commands::{handled, ok_reply, overflow_reply, reply_only, syntax_error_reply, Effect};
use crate::db::{
    canonical, distinct_keys, inserted, lemma_distinct_kept, lemma_other_key_untouched, lookup,
    purged, with_deadline, Database, RObj, Slot, Value,
};
use crate::decimal::{decimal, decimal_bytes};
use crate::errors::Result;
use crate::request::Request;
use crate::response::{array_frame, bulk_frame, error_frame, integer_frame, null_string_frame, Response};
use crate::response_ext::{not_a_number_reply, text, wrong_type_reply, ResponseExt};
use vstd::prelude::*;

verus! {

/// The nanoseconds in a millisecond.
pub const NANOS_PER_MILLI: u128 = 1_000_000;

/// The nanoseconds in a second.
pub const NANOS_PER_SECOND: u128 = 1_000_000_000;

/// The deadline that lies `nanos` after `now`; the last moment of the
/// clock, where the clock does not reach that far.
pub open spec fn deadline_after(now: u128, nanos: int) -> u128 {
    if now + nanos > u128::MAX {
        u128::MAX
    } else {
        (now + nanos) as u128
    }
}

/// The deadline that lies `nanos` after `now`.
pub fn deadline_from(now: u128, nanos: u128) -> (r: u128)
    ensures
        r == deadline_after(now, nanos as int),
{
    match now.checked_add(nanos) {
        Some(when) => when,
        None => u128::MAX,
    }
}

/// What the options of `SET` ask for, or why they are refused.
pub enum SetOptions {
    /// `nx`: only where the key is absent; `xx`: only where it is present;
    /// `ttl`: the time to live in milliseconds.
    Plan { nx: bool, xx: bool, ttl: Option<i64> },
    NotANumber,
    InvalidExpire,
    SyntaxError,
}

/// Reads the options of `SET` from the item at `i` on, given what the items
/// before it have asked for.
pub open spec fn set_options(a: Seq<Seq<u8>>, i: int, nx: bool, xx: bool, ttl: Option<i64>) -> SetOptions
    decreases a.len() - i,
{
    if i >= a.len() {
        SetOptions::Plan { nx, xx, ttl }
    } else {
        let word = lower_bytes(a[i]);
        if word == text("nx") && !xx {
            set_options(a, i + 1, true, xx, ttl)
        } else if word == text("xx") && !nx {
            set_options(a, i + 1, nx, true, ttl)
        } else if (word == text("ex") || word == text("px")) && ttl is None && i + 1 < a.len() {
            match parsed(a[i + 1], i64::MIN as int, i64::MAX as int) {
                None => SetOptions::NotANumber,
                Some(n) => if n <= 0 {
                    SetOptions::InvalidExpire
                } else if word == text("ex") {
                    if n * 1000 > i64::MAX {
                        SetOptions::InvalidExpire
                    } else {
                        set_options(a, i + 2, nx, xx, Some((n * 1000) as i64))
                    }
                } else {
                    set_options(a, i + 2, nx, xx, Some(n as i64))
                },
            }
        } else {
            SetOptions::SyntaxError
        }
    }
}

/// `SET key value [NX|XX] [EX seconds|PX milliseconds]`.
pub open spec fn set_effect(s: Seq<Slot>, a: Seq<Seq<u8>>, now: u128) -> Effect {
    match set_options(a, 3, false, false, None) {
        SetOptions::NotANumber => reply_only(s, not_a_number_reply()),
        SetOptions::InvalidExpire => reply_only(
            s,
            error_frame(text("ERR invalid expire time in set")),
        ),
        SetOptions::SyntaxError => reply_only(s, syntax_error_reply()),
        SetOptions::Plan { nx, xx, ttl } => {
            let existing = lookup(s, a[1], now) is Some;
            let read = purged(s, a[1], now);
            if (nx && existing) || (xx && !existing) {
                Effect { db: read, reply: null_string_frame() }
            } else {
                let expires = match ttl {
                    Some(millis) => Some(deadline_after(now, millis * NANOS_PER_MILLI)),
                    None => None,
                };
                Effect {
                    db: with_deadline(inserted(read, a[1], canonical(a[2])), a[1], expires),
                    reply: ok_reply(),
                }
            }
        },
    }
}

/// Reads the options of `SET`, which start at the fourth item.
fn read_set_options(items: &[ByteString]) -> (r: SetOptions)
    ensures
        r == set_options(views(items@), 2, false, false, None),
        r matches SetOptions::Plan { ttl: Some(millis), .. } ==> millis > 0,
{
    let ghost a = views(items@);
    let mut nx = false;
    let mut xx = false;
    let mut ttl: Option<i64> = None;
    let mut i: usize = 2;
    while i < items.len()
        invariant
            2 <= i,
            a == views(items@),
            ttl matches Some(millis) ==> millis > 0,
            set_options(a, 2, false, false, None) == set_options(a, i as int, nx, xx, ttl),
        decreases items.len() - i,
    {
        let word = items[i].to_lowercase();
        assert(word@ == lower_bytes(a[i as int]));
        if word.eq_bytes("nx") && !xx {
            nx = true;
            i += 1;
        } else if word.eq_bytes("xx") && !nx {
            xx = true;
            i += 1;
        } else if (word.eq_bytes("ex") || word.eq_bytes("px")) && ttl.is_none() && i + 1
            < items.len() {
            assert(a[i + 1] == items@[i + 1]@);
            let n: i64 = match items[i + 1].parse::<i64>() {
                Ok(n) => n,
                Err(_) => {
                    return SetOptions::NotANumber;
                },
            };
            if n <= 0 {
                return SetOptions::InvalidExpire;
            }
            if word.eq_bytes("ex") {
                match n.checked_mul(1000) {
                    Some(millis) => {
                        ttl = Some(millis);
                    },
                    None => {
                        return SetOptions::InvalidExpire;
                    },
                }
            } else {
                ttl = Some(n);
            }
            i += 2;
        } else {
            return SetOptions::SyntaxError;
        }
    }
    SetOptions::Plan { nx, xx, ttl }
}

/// Handles `SET`.
pub fn set_command(db: &mut Database, request: &Request, response: &mut Response, now: u128) -> (r:
    Result<()>)
    requires
        old(db).wf(),
    ensures
        final(db).wf(),
        handled(
            r,
            request@.len() >= 3,
            old(db)@,
            old(response)@,
            final(db)@,
            final(response)@,
            set_effect(old(db)@, request@, now),
        ),
{
    let key = request.arg(0)?;
    let value = request.arg(1)?;
    let arguments = request.arguments();
    assert(views(arguments@) == request@.skip(1));
    proof {
        lemma_set_options_shift(request@, 2, false, false, None);
    }
    match read_set_options(arguments) {
        SetOptions::NotANumber => {
            response.add_reply_not_a_number();
        },
        SetOptions::InvalidExpire => {
            response.add_error("ERR invalid expire time in set");
        },
        SetOptions::SyntaxError => {
            response.add_error("ERR syntax error");
        },
        SetOptions::Plan { nx, xx, ttl } => {
            let existing = db.get_at(key, now).is_some();
            if (nx && existing) || (xx && !existing) {
                response.add_null_string();
            } else {
                db.insert(key.copy(), RObj::from(value.copy()));
                match ttl {
                    Some(millis) => {
                        let when = deadline_from(now, (millis as u128) * NANOS_PER_MILLI);
                        db.set_expire(key, when);
                    },
                    None => {
                        db.persist(key);
                    },
                }
                response.add_simple_string("OK");
            }
        },
    }
    Ok(())
}

/// The options of `SET` read the same from a request and from its
/// arguments, which lie one place further to the front.
pub proof fn lemma_set_options_shift(a: Seq<Seq<u8>>, i: int, nx: bool, xx: bool, ttl: Option<i64>)
    requires
        a.len() >= 1,
        i >= 0,
    ensures
        set_options(a.skip(1), i, nx, xx, ttl) == set_options(a, i + 1, nx, xx, ttl),
    decreases a.len() - i,
{
    let b = a.skip(1);
    if i < b.len() {
        assert(b[i] == a[i + 1]);
        lemma_set_options_shift(a, i + 1, true, xx, ttl);
        lemma_set_options_shift(a, i + 1, nx, true, ttl);
        if i + 1 < b.len() {
            assert(b[i + 1] == a[i + 2]);
            match parsed(b[i + 1], i64::MIN as int, i64::MAX as int) {
                Some(n) => {
                    if n > 0 {
                        if n * 1000 <= i64::MAX {
                            lemma_set_options_shift(a, i + 2, nx, xx, Some((n * 1000) as i64));
                        }
                        lemma_set_options_shift(a, i + 2, nx, xx, Some(n as i64));
                    }
                },
                None => {},
            }
        }
    }
}

/// The reply of `GET` and `MGET` for what a key holds; `other` is the reply
/// for a key that holds neither a string nor an integer.
pub open spec fn string_reply(found: Option<Value>, other: Seq<u8>) -> Seq<u8> {
    match found {
        Some(Value::Str(bytes)) => bulk_frame(bytes),
        Some(Value::Int(n)) => bulk_frame(decimal(n as int)),
        Some(_) => other,
        None => null_string_frame(),
    }
}

/// `GET key`.
pub open spec fn get_effect(s: Seq<Slot>, a: Seq<Seq<u8>>, now: u128) -> Effect {
    Effect {
        db: purged(s, a[1], now),
        reply: string_reply(lookup(s, a[1], now), wrong_type_reply()),
    }
}

/// Handles `GET`.
pub fn get_command(db: &mut Database, request: &Request, response: &mut Response, now: u128) -> (r:
    Result<()>)
    requires
        old(db).wf(),
    ensures
        final(db).wf(),
        handled(
            r,
            request@.len() >= 2,
            old(db)@,
            old(response)@,
            final(db)@,
            final(response)@,
            get_effect(old(db)@, request@, now),
        ),
{
    let key = request.arg(0)?;
    match db.get_at(key, now) {
        Some(RObj::String(value)) => {
            response.add_bulk_string(value);
        },
        Some(RObj::Int(value)) => {
            let digits = decimal_bytes(*value);
            response.add_bulk_string(digits.as_slice());
        },
        Some(_) => response.add_reply_wrong_type(),
        None => response.add_null_string(),
    }
    Ok(())
}

/// The keyspace after the first `n` of the given pairs are stored.
pub open spec fn stored_pairs(s: Seq<Slot>, pairs: Seq<Seq<u8>>, n: int) -> Seq<Slot>
    decreases n,
{
    if n <= 0 {
        s
    } else {
        inserted(stored_pairs(s, pairs, n - 1), pairs[2 * n - 2], canonical(pairs[2 * n - 1]))
    }
}

/// `MSET key value [key value ...]`.
pub open spec fn mset_effect(s: Seq<Slot>, a: Seq<Seq<u8>>) -> Effect {
    let pairs = a.skip(1);
    if pairs.len() % 2 != 0 {
        reply_only(s, error_frame(text("ERR wrong number of arguments for MSET")))
    } else {
        Effect { db: stored_pairs(s, pairs, pairs.len() as int / 2), reply: ok_reply() }
    }
}

/// Handles `MSET`.
pub fn mset_command(db: &mut Database, request: &Request, response: &mut Response, now: u128) -> (r:
    Result<()>)
    requires
        old(db).wf(),
    ensures
        final(db).wf(),
        handled(
            r,
            true,
            old(db)@,
            old(response)@,
            final(db)@,
            final(response)@,
            mset_effect(old(db)@, request@),
        ),
{
    let arguments = request.arguments();
    if arguments.len() % 2 != 0 {
        response.add_error("ERR wrong number of arguments for MSET");
        return Ok(());
    }
    let ghost pairs = views(arguments@);
    let count = arguments.len() / 2;
    let mut n: usize = 0;
    while n < count
        invariant
            n <= count,
            count == arguments.len() / 2,
            arguments.len() % 2 == 0,
            pairs == views(arguments@),
            db.wf(),
            db@ == stored_pairs(old(db)@, pairs, n as int),
        decreases count - n,
    {
        let key = &arguments[2 * n];
        let value = &arguments[2 * n + 1];
        db.insert(key.copy(), RObj::from(value.copy()));
        n += 1;
    }
    response.add_simple_string("OK");
    Ok(())
}

/// What `MGET` has done once it has read the first `n` of the given keys.
pub open spec fn mget_progress(s: Seq<Slot>, keys: Seq<Seq<u8>>, now: u128, n: int) -> Effect
    decreases n,
{
    if n <= 0 {
        Effect { db: s, reply: array_frame(keys.len() as int) }
    } else {
        let before = mget_progress(s, keys, now, n - 1);
        Effect {
            db: purged(before.db, keys[n - 1], now),
            reply: before.reply + string_reply(
                lookup(before.db, keys[n - 1], now),
                null_string_frame(),
            ),
        }
    }
}

/// `MGET key [key ...]`.
pub open spec fn mget_effect(s: Seq<Slot>, a: Seq<Seq<u8>>, now: u128) -> Effect {
    mget_progress(s, a.skip(1), now, a.len() - 1)
}

/// Handles `MGET`.
pub fn mget_command(db: &mut Database, request: &Request, response: &mut Response, now: u128) -> (r:
    Result<()>)
    requires
        old(db).wf(),
    ensures
        final(db).wf(),
        handled(
            r,
            true,
            old(db)@,
            old(response)@,
            final(db)@,
            final(response)@,
            mget_effect(old(db)@, request@, now),
        ),
{
    let keys = request.arguments();
    let ghost names = views(keys@);
    response.add_array_of(keys.len() as u128);
    let mut n: usize = 0;
    while n < keys.len()
        invariant
            n <= keys.len(),
            names == views(keys@),
            db.wf(),
            db@ == mget_progress(old(db)@, names, now, n as int).db,
            response@ == old(response)@ + mget_progress(old(db)@, names, now, n as int).reply,
        decreases keys.len() - n,
    {
        let ghost before = response@;
        match db.get_at(&keys[n], now) {
            Some(RObj::Int(value)) => {
                let digits = decimal_bytes(*value);
                response.add_bulk_string(digits.as_slice());
            },
            Some(RObj::String(value)) => {
                response.add_bulk_string(value);
            },
            _ => {
                response.add_null_string();
            },
        }
        n += 1;
        assert(response@ =~= old(response)@ + mget_progress(old(db)@, names, now, n as int).reply);
    }
    Ok(())
}

/// What a counter command does to `key` with the signed step `step`.
pub open spec fn incr_effect(s: Seq<Slot>, key: Seq<u8>, now: u128, step: i64) -> Effect {
    let read = purged(s, key, now);
    match lookup(s, key, now) {
        Some(Value::Int(n)) => if i64::MIN <= n + step <= i64::MAX {
            Effect {
                db: inserted(read, key, Value::Int((n + step) as i64)),
                reply: integer_frame(n + step),
            }
        } else {
            Effect { db: read, reply: overflow_reply() }
        },
        Some(Value::Str(_)) => Effect { db: read, reply: not_a_number_reply() },
        Some(_) => Effect { db: read, reply: wrong_type_reply() },
        None => Effect { db: inserted(read, key, Value::Int(step)), reply: integer_frame(step as int) },
    }
}

/// `INCRBY key step` for `sign` 1 and `DECRBY key step` for `sign` -1.
pub open spec fn step_effect(s: Seq<Slot>, a: Seq<Seq<u8>>, now: u128, sign: int) -> Effect {
    match parsed(a[2], i64::MIN as int, i64::MAX as int) {
        None => reply_only(s, not_a_number_reply()),
        Some(n) => if i64::MIN <= sign * n <= i64::MAX {
            incr_effect(s, a[1], now, (sign * n) as i64)
        } else {
            reply_only(s, overflow_reply())
        },
    }
}

/// What a key holds, as far as a counter command cares.
enum Held {
    Int(i64),
    Str,
    Other,
    Absent,
}

fn general_incr(
    db: &mut Database,
    request: &Request,
    response: &mut Response,
    increment: i64,
    now: u128,
) -> (r: Result<()>)
    requires
        old(db).wf(),
    ensures
        final(db).wf(),
        handled(
            r,
            request@.len() >= 2,
            old(db)@,
            old(response)@,
            final(db)@,
            final(response)@,
            incr_effect(old(db)@, request@[1], now, increment),
        ),
{
    let key = request.arg(0)?;
    let held = match db.get_at(key, now) {
        Some(RObj::Int(n)) => Held::Int(*n),
        Some(RObj::String(_)) => Held::Str,
        Some(_) => Held::Other,
        None => Held::Absent,
    };
    match held {
        Held::Int(old_value) => {
            match old_value.checked_add(increment) {
                Some(new_value) => {
                    db.insert(key.copy(), RObj::Int(new_value));
                    response.add_integer(new_value);
                },
                None => {
                    response.add_error("ERR increment or decrement would overflow");
                },
            }
        },
        Held::Str => response.add_reply_not_a_number(),
        Held::Other => response.add_reply_wrong_type(),
        Held::Absent => {
            db.insert(key.copy(), RObj::Int(increment));
            response.add_integer(increment);
        },
    }
    Ok(())
}

/// Handles `INCR`.
pub fn incr_command(db: &mut Database, request: &Request, response: &mut Response, now: u128) -> (r:
    Result<()>)
    requires
        old(db).wf(),
    ensures
        final(db).wf(),
        handled(
            r,
            request@.len() >= 2,
            old(db)@,
            old(response)@,
            final(db)@,
            final(response)@,
            incr_effect(old(db)@, request@[1], now, 1),
        ),
{
    general_incr(db, request, response, 1, now)
}

/// Handles `DECR`.
pub fn decr_command(db: &mut Database, request: &Request, response: &mut Response, now: u128) -> (r:
    Result<()>)
    requires
        old(db).wf(),
    ensures
        final(db).wf(),
        handled(
            r,
            request@.len() >= 2,
            old(db)@,
            old(response)@,
            final(db)@,
            final(response)@,
            incr_effect(old(db)@, request@[1], now, -1i64),
        ),
{
    general_incr(db, request, response, -1, now)
}

/// Handles `INCRBY`.
pub fn incrby_command(db: &mut Database, request: &Request, response: &mut Response, now: u128) -> (r:
    Result<()>)
    requires
        old(db).wf(),
    ensures
        final(db).wf(),
        handled(
            r,
            request@.len() >= 3,
            old(db)@,
            old(response)@,
            final(db)@,
            final(response)@,
            step_effect(old(db)@, request@, now, 1),
        ),
{
    let arg = request.arg(1)?;
    match parse_i64_or_reply_with_error(response, arg) {
        Some(increment) => general_incr(db, request, response, increment, now),
        None => Ok(()),
    }
}

/// Handles `DECRBY`.
pub fn decrby_command(db: &mut Database, request: &Request, response: &mut Response, now: u128) -> (r:
    Result<()>)
    requires
        old(db).wf(),
    ensures
        final(db).wf(),
        handled(
            r,
            request@.len() >= 3,
            old(db)@,
            old(response)@,
            final(db)@,
            final(response)@,
            step_effect(old(db)@, request@, now, -1),
        ),
{
    let arg = request.arg(1)?;
    match parse_i64_or_reply_with_error(response, arg) {
        Some(decrement) => match 0i64.checked_sub(decrement) {
            Some(increment) => general_incr(db, request, response, increment, now),
            None => {
                response.add_error("ERR increment or decrement would overflow");
                Ok(())
            },
        },
        None => Ok(()),
    }
}

/// Parses an argument as a 64-bit integer; where it is none, adds the reply
/// that says so.
pub fn parse_i64_or_reply_with_error(response: &mut Response, value: &ByteString) -> (r: Option<i64>)
    ensures
        match r {
            Some(n) => parsed(value@, i64::MIN as int, i64::MAX as int) == Some(n as int)
                && final(response)@ == old(response)@,
            None => parsed(value@, i64::MIN as int, i64::MAX as int) is None && final(response)@
                == old(response)@ + not_a_number_reply(),
        },
{
    match value.parse::<i64>() {
        Ok(v) => Some(v),
        Err(_) => {
            response.add_reply_not_a_number();
            None
        },
    }
}

/// A counter command on a key that holds bytes that write no integer
/// replies that the value is no integer, and leaves the keyspace as it is.
pub proof fn lemma_incr_on_text(s: Seq<Slot>, key: Seq<u8>, now: u128, step: i64)
    requires
        lookup(s, key, now) matches Some(Value::Str(_)),
    ensures
        incr_effect(s, key, now, step) == (Effect { db: s, reply: not_a_number_reply() }),
{
}

/// An increment of the greatest integer replies that it would overflow,
/// and leaves the keyspace as it is.
pub proof fn lemma_incr_at_max(s: Seq<Slot>, key: Seq<u8>, now: u128)
    requires
        lookup(s, key, now) == Some(Value::Int(i64::MAX)),
    ensures
        incr_effect(s, key, now, 1) == (Effect { db: s, reply: overflow_reply() }),
{
}

/// `GET` changes what no read finds: not under its own key, not under any
/// other.
pub proof fn lemma_get_changes_no_value(s: Seq<Slot>, a: Seq<Seq<u8>>, now: u128, other: Seq<u8>)
    requires
        distinct_keys(s),
    ensures
        lookup(get_effect(s, a, now).db, other, now) == lookup(s, other, now),
{
    if other == a[1] {
        if crate::db::is_stale(s, other, now) {
            crate::db::lemma_read_expires(s, other, now);
            let after = purged(s, other, now);
            if crate::db::has_key(after, other) {
                let j = crate::db::key_index(after, other);
                assert(after[j].key == other);
                lemma_distinct_kept(s, other, Value::Int(0), now, None);
                crate::db::lemma_slot_at(after, j);
            }
        }
    } else {
        lemma_other_key_untouched(s, a[1], other, Value::Int(0), now, None, now);
    }
}

/// `SET` and `GET` on one key change nothing that a read finds under
/// another key, at whatever time the read is made.
pub proof fn lemma_set_leaves_other_keys(
    s: Seq<Slot>,
    a: Seq<Seq<u8>>,
    now: u128,
    other: Seq<u8>,
    at: u128,
)
    requires
        distinct_keys(s),
        other != a[1],
    ensures
        lookup(set_effect(s, a, now).db, other, at) == lookup(s, other, at),
        lookup(get_effect(s, a, now).db, other, at) == lookup(s, other, at),
        distinct_keys(set_effect(s, a, now).db),
        distinct_keys(get_effect(s, a, now).db),
{
    let key = a[1];
    let read = purged(s, key, now);
    let stored = inserted(read, key, canonical(a[2]));
    lemma_other_key_untouched(s, key, other, canonical(a[2]), now, None, at);
    lemma_distinct_kept(s, key, canonical(a[2]), now, None);
    lemma_other_key_untouched(read, key, other, canonical(a[2]), now, None, at);
    lemma_distinct_kept(read, key, canonical(a[2]), now, None);
    match set_options(a, 3, false, false, None) {
        SetOptions::Plan { nx, xx, ttl } => {
            let expires = match ttl {
                Some(millis) => Some(deadline_after(now, millis * NANOS_PER_MILLI)),
                None => None,
            };
            lemma_other_key_untouched(stored, key, other, canonical(a[2]), now, expires, at);
            lemma_distinct_kept(stored, key, canonical(a[2]), now, expires);
        },
        _ => {},
    }
}

/// The keyspace after one request of a client that reads and writes
/// strings: a `GET`, or else a `SET`.
pub open spec fn string_step(s: Seq<Slot>, a: Seq<Seq<u8>>, now: u128) -> Seq<Slot> {
    if lower_bytes(a[0]) == text("get") {
        get_effect(s, a, now).db
    } else {
        set_effect(s, a, now).db
    }
}

/// The keyspace after a run of such requests, each made at its own time.
pub open spec fn string_steps(s: Seq<Slot>, requests: Seq<Seq<Seq<u8>>>, times: Seq<u128>) -> Seq<
    Slot,
>
    decreases requests.len(),
{
    if requests.len() == 0 {
        s
    } else {
        string_step(
            string_steps(s, requests.drop_last(), times),
            requests.last(),
            times[requests.len() - 1],
        )
    }
}

/// What a client finds under its key does not depend on what others do to
/// other keys: a run of `SET` and `GET` requests, none of them on `key`,
/// changes nothing that a read finds under `key`, whenever the requests
/// and the read are made.
pub proof fn lemma_clients_apart(
    s: Seq<Slot>,
    requests: Seq<Seq<Seq<u8>>>,
    times: Seq<u128>,
    key: Seq<u8>,
    at: u128,
)
    requires
        distinct_keys(s),
        forall|i: int| 0 <= i < requests.len() ==> (#[trigger] requests[i])[1] != key,
    ensures
        lookup(string_steps(s, requests, times), key, at) == lookup(s, key, at),
        distinct_keys(string_steps(s, requests, times)),
    decreases requests.len(),
{
    if requests.len() > 0 {
        let before = requests.drop_last();
        assert forall|i: int| 0 <= i < before.len() implies (#[trigger] before[i])[1] != key by {
            assert(before[i] == requests[i]);
        }
        lemma_clients_apart(s, before, times, key, at);
        lemma_set_leaves_other_keys(
            string_steps(s, before, times),
            requests.last(),
            times[requests.len() - 1],
            key,
            at,
        );
    }
}

} // verus!
