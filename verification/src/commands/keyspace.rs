//! The commands on keys, whatever they hold.

use crate::byte_glob::{glob, glob_matches};
use crate::byte_string::from_bytes::parsed;
use crate::byte_string::{lower_bytes, views, ByteStr, ByteString};
use crate::commands::string_type::{deadline_after, deadline_from, NANOS_PER_SECOND};
use crate::commands::{handled, reply_only, Effect};
use crate::db::{
    deadline, decides, has_key, lookup, matching_keys, purged, ref_views, removed, with_deadline,
    Database, RObj, Slot, Value,
};
use crate::errors::Result;
use crate::request::Request;
use crate::response::{
    array_frame, bulk_frame, bulk_frames, integer_frame, null_string_frame, simple_frame, Response,
};
use crate::response_ext::{
    help_reply, not_a_number_reply, subcommand_syntax_reply, text, ResponseExt,
};
use vstd::prelude::*;

verus! {

/// What `DEL` has done once it has removed the first `n` of the given keys:
/// the keyspace, and how many of the keys were stored.
pub open spec fn del_progress(s: Seq<Slot>, keys: Seq<Seq<u8>>, n: int) -> (Seq<Slot>, int)
    decreases n,
{
    if n <= 0 {
        (s, 0)
    } else {
        let (db, count) = del_progress(s, keys, n - 1);
        (removed(db, keys[n - 1]), count + if has_key(db, keys[n - 1]) {
            1int
        } else {
            0int
        })
    }
}

/// `DEL key [key ...]`.
pub open spec fn del_effect(s: Seq<Slot>, a: Seq<Seq<u8>>) -> Effect {
    let (db, count) = del_progress(s, a.skip(1), a.len() - 1);
    Effect { db, reply: integer_frame(count) }
}

/// Handles `DEL`.
pub fn del_command(db: &mut Database, request: &Request, response: &mut Response, now: u128) -> (r:
    Result<()>)
    requires
        old(db).wf(),
    ensures
        final(db).wf(),
        handled(
            r,
            true,
            old(db)@,
            old(response)@,
            final(db)@,
            final(response)@,
            del_effect(old(db)@, request@),
        ),
{
    let keys = request.arguments();
    let ghost names = views(keys@);
    let mut count: usize = 0;
    let mut n: usize = 0;
    while n < keys.len()
        invariant
            n <= keys.len(),
            count <= n,
            names == views(keys@),
            db.wf(),
            (db@, count as int) == del_progress(old(db)@, names, n as int),
        decreases keys.len() - n,
    {
        if db.remove(&keys[n]).is_some() {
            count += 1;
        }
        n += 1;
    }
    proof {
        let done = del_progress(old(db)@, request@.skip(1), request@.len() - 1);
        assert(names.len() == request@.len() - 1);
        assert(done.0 == db@ && done.1 == count);
    }
    response.add_natural(count as u128);
    Ok(())
}

/// What `EXISTS` has done once it has read the first `n` of the given keys:
/// the keyspace, and how many of the keys were found.
pub open spec fn exists_progress(s: Seq<Slot>, keys: Seq<Seq<u8>>, now: u128, n: int) -> (
    Seq<Slot>,
    int,
)
    decreases n,
{
    if n <= 0 {
        (s, 0)
    } else {
        let (db, count) = exists_progress(s, keys, now, n - 1);
        (purged(db, keys[n - 1], now), count + if lookup(db, keys[n - 1], now) is Some {
            1int
        } else {
            0int
        })
    }
}

/// `EXISTS key [key ...]`.
pub open spec fn exists_effect(s: Seq<Slot>, a: Seq<Seq<u8>>, now: u128) -> Effect {
    let (db, count) = exists_progress(s, a.skip(1), now, a.len() - 1);
    Effect { db, reply: integer_frame(count) }
}

/// Handles `EXISTS`.
pub fn exists_command(db: &mut Database, request: &Request, response: &mut Response, now: u128) -> (r:
    Result<()>)
    requires
        old(db).wf(),
    ensures
        final(db).wf(),
        handled(
            r,
            true,
            old(db)@,
            old(response)@,
            final(db)@,
            final(response)@,
            exists_effect(old(db)@, request@, now),
        ),
{
    let keys = request.arguments();
    let ghost names = views(keys@);
    let mut count: usize = 0;
    let mut n: usize = 0;
    while n < keys.len()
        invariant
            n <= keys.len(),
            count <= n,
            names == views(keys@),
            db.wf(),
            (db@, count as int) == exists_progress(old(db)@, names, now, n as int),
        decreases keys.len() - n,
    {
        if db.get_at(&keys[n], now).is_some() {
            count += 1;
        }
        n += 1;
    }
    proof {
        let done = exists_progress(old(db)@, request@.skip(1), now, request@.len() - 1);
        assert(names.len() == request@.len() - 1);
        assert(done.0 == db@ && done.1 == count);
    }
    response.add_natural(count as u128);
    Ok(())
}

/// The keys that `KEYS` lists for a pattern: every key for `*`, and the
/// keys that the pattern matches for any other.
pub open spec fn keys_accepted(pattern: Seq<u8>) -> spec_fn(Seq<u8>) -> bool {
    |key: Seq<u8>| pattern == text("*") || glob_matches(pattern, key)
}

/// `KEYS pattern`.
pub open spec fn keys_effect(s: Seq<Slot>, a: Seq<Seq<u8>>, now: u128) -> Effect {
    let found = matching_keys(s, now, keys_accepted(a[1]));
    reply_only(s, array_frame(found.len() as int) + bulk_frames(found))
}

/// Handles `KEYS`.
pub fn keys_command(db: &mut Database, request: &Request, response: &mut Response, now: u128) -> (r:
    Result<()>)
    requires
        old(db).wf(),
    ensures
        final(db).wf(),
        handled(
            r,
            request@.len() >= 2,
            old(db)@,
            old(response)@,
            final(db)@,
            final(response)@,
            keys_effect(old(db)@, request@, now),
        ),
{
    let pattern = request.arg(0)?;
    let all_keys = pattern.eq_bytes("*");
    let accept = |key: &ByteString| -> (b: bool)
        ensures
            b == (all_keys || glob_matches(pattern@, key@)),
        { all_keys || glob(pattern.as_slice(), key.as_slice()) };
    let results = db.filter_keys_at(accept, now);
    proof {
        assert(decides(accept, keys_accepted(pattern@)));
    }
    let ghost found = matching_keys(db@, now, keys_accepted(pattern@));
    assert(ref_views(results@) == found);
    response.add_array_of(results.len() as u128);
    let ghost start = response@;
    let mut i: usize = 0;
    while i < results.len()
        invariant
            i <= results.len(),
            ref_views(results@) == found,
            response@ == start + bulk_frames(found.take(i as int)),
        decreases results.len() - i,
    {
        proof {
            assert(found.take(i + 1).drop_last() =~= found.take(i as int));
            assert(found.take(i + 1).last() == results@[i as int]@);
        }
        response.add_bulk_string(results[i]);
        i += 1;
        assert(response@ =~= start + bulk_frames(found.take(i as int)));
    }
    assert(found.take(results.len() as int) =~= found);
    assert(response@ =~= old(response)@ + keys_effect(old(db)@, request@, now).reply);
    Ok(())
}

/// The name of the type of what a key holds.
pub open spec fn kind_name(found: Option<Value>) -> Seq<u8> {
    match found {
        Some(Value::Int(_)) => text("string"),
        Some(Value::Str(_)) => text("string"),
        Some(Value::List(_)) => text("list"),
        Some(Value::Hash(_)) => text("hash"),
        None => text("none"),
    }
}

/// `TYPE key`.
pub open spec fn type_effect(s: Seq<Slot>, a: Seq<Seq<u8>>, now: u128) -> Effect {
    Effect { db: purged(s, a[1], now), reply: simple_frame(kind_name(lookup(s, a[1], now))) }
}

/// Handles `TYPE`.
pub fn type_command(db: &mut Database, request: &Request, response: &mut Response, now: u128) -> (r:
    Result<()>)
    requires
        old(db).wf(),
    ensures
        final(db).wf(),
        handled(
            r,
            request@.len() >= 2,
            old(db)@,
            old(response)@,
            final(db)@,
            final(response)@,
            type_effect(old(db)@, request@, now),
        ),
{
    let key = request.arg(0)?;
    match db.get_at(key, now) {
        Some(RObj::Int(_)) => response.add_simple_string("string"),
        Some(RObj::String(_)) => response.add_simple_string("string"),
        Some(RObj::List(_)) => response.add_simple_string("list"),
        Some(RObj::Hash(_)) => response.add_simple_string("hash"),
        None => response.add_simple_string("none"),
    }
    Ok(())
}

/// The help text of `OBJECT`.
pub open spec fn object_help_text() -> Seq<&'static str> {
    seq![
        "ENCODING <key> -- Return the kind of internal representation used in order to store the value associated with a key.",
        "FREQ <key> -- NOT SUPPORTED",
        "IDLETIME <key> -- NOT SUPPORTED",
        "REFCOUNT <key> -- NOT SUPPORTED",
    ]
}

/// The help text of `OBJECT`.
pub fn object_help() -> (r: [&'static str; 4])
    ensures
        r@ == object_help_text(),
{
    let r = [
        "ENCODING <key> -- Return the kind of internal representation used in order to store the value associated with a key.",
        "FREQ <key> -- NOT SUPPORTED",
        "IDLETIME <key> -- NOT SUPPORTED",
        "REFCOUNT <key> -- NOT SUPPORTED",
    ];
    assert(r@ =~= object_help_text());
    r
}

/// The name of the encoding of what a key holds.
pub open spec fn encoding_name(value: Value) -> Seq<u8> {
    match value {
        Value::Int(_) => text("int"),
        Value::Str(_) => text("bytestr"),
        Value::List(_) => text("list"),
        Value::Hash(_) => text("hash"),
    }
}

/// `OBJECT HELP` and `OBJECT ENCODING key`.
pub open spec fn object_effect(s: Seq<Slot>, a: Seq<Seq<u8>>, now: u128) -> Effect {
    if a.len() < 2 {
        reply_only(s, subcommand_syntax_reply(a[0], text("(none)")))
    } else if lower_bytes(a[1]) == text("help") {
        reply_only(s, help_reply(a[0], object_help_text()))
    } else if lower_bytes(a[1]) == text("encoding") {
        if a.len() < 3 {
            reply_only(s, subcommand_syntax_reply(a[0], a[1]))
        } else {
            Effect {
                db: purged(s, a[2], now),
                reply: match lookup(s, a[2], now) {
                    Some(value) => bulk_frame(encoding_name(value)),
                    None => null_string_frame(),
                },
            }
        }
    } else {
        reply_only(s, subcommand_syntax_reply(a[0], a[1]))
    }
}

/// Handles `OBJECT`.
pub fn object_command(db: &mut Database, request: &Request, response: &mut Response, now: u128) -> (r:
    Result<()>)
    requires
        old(db).wf(),
    ensures
        final(db).wf(),
        handled(
            r,
            true,
            old(db)@,
            old(response)@,
            final(db)@,
            final(response)@,
            object_effect(old(db)@, request@, now),
        ),
{
    match request.maybe_arg(0) {
        Some(sub_command) => {
            let word = sub_command.to_lowercase();
            if word.eq_bytes("help") {
                let help = object_help();
                response.add_reply_help(request.command(), help.as_slice());
            } else if word.eq_bytes("encoding") {
                match request.maybe_arg(1) {
                    Some(key) => {
                        match db.get_at(key, now) {
                            Some(RObj::Int(_)) => response.add_bulk_string("int"),
                            Some(RObj::String(_)) => response.add_bulk_string("bytestr"),
                            Some(RObj::List(_)) => response.add_bulk_string("list"),
                            Some(RObj::Hash(_)) => response.add_bulk_string("hash"),
                            None => response.add_null_string(),
                        }
                    },
                    None => {
                        response.add_reply_subcommand_syntax_error(
                            request.command(),
                            sub_command.as_byte_str(),
                        );
                    },
                }
            } else {
                response.add_reply_subcommand_syntax_error(
                    request.command(),
                    sub_command.as_byte_str(),
                );
            }
        },
        None => {
            response.add_reply_subcommand_syntax_error(request.command(), ByteStr::new("(none)"));
        },
    }
    Ok(())
}

/// `EXPIRE key seconds`.
pub open spec fn expire_effect(s: Seq<Slot>, a: Seq<Seq<u8>>, now: u128) -> Effect {
    let read = purged(s, a[1], now);
    match lookup(s, a[1], now) {
        None => Effect { db: read, reply: integer_frame(0) },
        Some(_) => match parsed(a[2], i64::MIN as int, i64::MAX as int) {
            None => Effect { db: read, reply: not_a_number_reply() },
            Some(seconds) => if seconds <= 0 {
                Effect { db: removed(read, a[1]), reply: integer_frame(1) }
            } else {
                Effect {
                    db: with_deadline(
                        read,
                        a[1],
                        Some(deadline_after(now, seconds * NANOS_PER_SECOND)),
                    ),
                    reply: integer_frame(1),
                }
            },
        },
    }
}

/// Handles `EXPIRE`.
pub fn expire_command(db: &mut Database, request: &Request, response: &mut Response, now: u128) -> (r:
    Result<()>)
    requires
        old(db).wf(),
    ensures
        final(db).wf(),
        handled(
            r,
            request@.len() >= 3,
            old(db)@,
            old(response)@,
            final(db)@,
            final(response)@,
            expire_effect(old(db)@, request@, now),
        ),
{
    let key = request.arg(0)?;
    let amount = request.arg(1)?;
    if db.get_at(key, now).is_none() {
        response.add_integer(0);
        return Ok(());
    }
    let seconds: i64 = match amount.parse::<i64>() {
        Ok(n) => n,
        Err(_) => {
            response.add_reply_not_a_number();
            return Ok(());
        },
    };
    if seconds <= 0 {
        db.remove(key);
        response.add_integer(1);
        return Ok(());
    }
    let expires_at = deadline_from(now, (seconds as u128) * NANOS_PER_SECOND);
    db.set_expire(key, expires_at);
    response.add_integer(1);
    Ok(())
}

/// `PERSIST key`.
pub open spec fn persist_effect(s: Seq<Slot>, a: Seq<Seq<u8>>, now: u128) -> Effect {
    let read = purged(s, a[1], now);
    match lookup(s, a[1], now) {
        None => Effect { db: read, reply: integer_frame(0) },
        Some(_) => Effect {
            db: with_deadline(read, a[1], None),
            reply: integer_frame(
                if deadline(read, a[1]) is Some {
                    1
                } else {
                    0
                },
            ),
        },
    }
}

/// Handles `PERSIST`.
pub fn persist_command(db: &mut Database, request: &Request, response: &mut Response, now: u128) -> (r:
    Result<()>)
    requires
        old(db).wf(),
    ensures
        final(db).wf(),
        handled(
            r,
            request@.len() >= 2,
            old(db)@,
            old(response)@,
            final(db)@,
            final(response)@,
            persist_effect(old(db)@, request@, now),
        ),
{
    let key = request.arg(0)?;
    if db.get_at(key, now).is_none() {
        response.add_integer(0);
        return Ok(());
    }
    if db.persist(key) {
        response.add_integer(1);
    } else {
        response.add_integer(0);
    }
    Ok(())
}

/// `TTL key`: the whole seconds left until the deadline, `-1` for a key
/// without one, `-2` for a key that is absent.
pub open spec fn ttl_effect(s: Seq<Slot>, a: Seq<Seq<u8>>, now: u128) -> Effect {
    let read = purged(s, a[1], now);
    match lookup(s, a[1], now) {
        None => Effect { db: read, reply: integer_frame(-2) },
        Some(_) => Effect {
            db: read,
            reply: match deadline(read, a[1]) {
                Some(when) => integer_frame((when - now) / (NANOS_PER_SECOND as int)),
                None => integer_frame(-1),
            },
        },
    }
}

/// Handles `TTL`.
pub fn ttl_command(db: &mut Database, request: &Request, response: &mut Response, now: u128) -> (r:
    Result<()>)
    requires
        old(db).wf(),
    ensures
        final(db).wf(),
        handled(
            r,
            request@.len() >= 2,
            old(db)@,
            old(response)@,
            final(db)@,
            final(response)@,
            ttl_effect(old(db)@, request@, now),
        ),
{
    let key = request.arg(0)?;
    if db.get_at(key, now).is_none() {
        response.add_integer(-2);
        return Ok(());
    }
    match db.get_expire(key) {
        Some(when) => {
            response.add_natural((when - now) / NANOS_PER_SECOND);
        },
        None => response.add_integer(-1),
    }
    Ok(())
}

} // verus!
