//! The commands on hashes.

use crate::byte_string::{lemma_views_edit, views, ByteString};
use crate::commands::{handled, ok_reply, reply_only, Effect};
use crate::db::{
    field_set, field_value, inserted, lemma_found_stays, lemma_inserted_same, lookup, purged,
    Database, HashObj, RObj, Slot, Value,
};
use crate::errors::Result;
use crate::request::Request;
use crate::response::{
    array_frame, bulk_frame, error_frame, integer_frame, null_string_frame, Response,
};
use crate::response_ext::{text, wrong_type_reply, ResponseExt};
use vstd::prelude::*;

verus! {

/// The fields of a hash after the first `n` of the given pairs are set.
pub open spec fn fields_set(h: Seq<(Seq<u8>, Seq<u8>)>, pairs: Seq<Seq<u8>>, n: int) -> Seq<
    (Seq<u8>, Seq<u8>),
>
    decreases n,
{
    if n <= 0 {
        h
    } else {
        field_set(fields_set(h, pairs, n - 1), pairs[2 * n - 2], pairs[2 * n - 1])
    }
}

/// What a key holds as a hash: its fields, and none for a key that is
/// absent.
pub open spec fn fields_of(found: Option<Value>) -> Seq<(Seq<u8>, Seq<u8>)> {
    match found {
        Some(Value::Hash(h)) => h,
        _ => Seq::empty(),
    }
}

/// The key holds something, and it is no hash.
pub open spec fn holds_other(found: Option<Value>) -> bool {
    match found {
        Some(Value::Hash(_)) => false,
        Some(_) => true,
        None => false,
    }
}

/// `HSET key field value [field value ...]`, which replies the number of
/// new fields, and `HMSET`, which replies `OK`.
pub open spec fn hset_effect(s: Seq<Slot>, a: Seq<Seq<u8>>, now: u128, with_count: bool) -> Effect {
    let pairs = a.skip(2);
    let read = purged(s, a[1], now);
    let found = lookup(s, a[1], now);
    if pairs.len() % 2 != 0 {
        reply_only(s, error_frame(text("ERR wrong number of arguments for HMSET")))
    } else if holds_other(found) {
        Effect { db: read, reply: wrong_type_reply() }
    } else {
        let before = fields_of(found);
        let after = fields_set(before, pairs, pairs.len() as int / 2);
        Effect {
            db: inserted(read, a[1], Value::Hash(after)),
            reply: if with_count {
                integer_frame(after.len() - before.len())
            } else {
                ok_reply()
            },
        }
    }
}

/// Sets the given pairs in a hash; says how many of the fields are new.
fn set_pairs(hash: &mut HashObj, pairs: &[ByteString]) -> (r: usize)
    requires
        pairs@.len() % 2 == 0,
    ensures
        final(hash)@ == fields_set(old(hash)@, views(pairs@), pairs@.len() as int / 2),
        r == final(hash)@.len() - old(hash)@.len(),
{
    let count = pairs.len() / 2;
    let mut added: usize = 0;
    let mut n: usize = 0;
    let start = hash.len();
    while n < count
        invariant
            n <= count,
            count == pairs.len() / 2,
            pairs.len() % 2 == 0,
            added <= n,
            start == old(hash)@.len(),
            hash@.len() == start + added,
            hash@ == fields_set(old(hash)@, views(pairs@), n as int),
        decreases count - n,
    {
        let field = pairs[2 * n].copy();
        let value = pairs[2 * n + 1].copy();
        proof {
            lemma_views_edit(pairs@, field, 2 * n);
            lemma_views_edit(pairs@, field, 2 * n + 1);
        }
        if hash.set(field, value) {
            added += 1;
        }
        n += 1;
    }
    added
}

/// Handles `HSET` and `HMSET`.
fn generic_hset_command(
    db: &mut Database,
    request: &Request,
    response: &mut Response,
    respond_with_count: bool,
    now: u128,
) -> (r: Result<()>)
    requires
        old(db).wf(),
    ensures
        final(db).wf(),
        handled(
            r,
            request@.len() >= 2,
            old(db)@,
            old(response)@,
            final(db)@,
            final(response)@,
            hset_effect(old(db)@, request@, now, respond_with_count),
        ),
{
    let key = request.arg(0)?;
    let values = request.arguments_from(1);
    if values.len() % 2 != 0 {
        response.add_error("ERR wrong number of arguments for HMSET");
        return Ok(());
    }
    proof {
        if lookup(db@, key@, now) is Some {
            lemma_found_stays(db@, key@, now);
            lemma_inserted_same(db@, key@);
        }
    }
    match db.get_mut_at(key, now) {
        Some(RObj::Hash(hash)) => {
            let added = set_pairs(hash, values);
            if respond_with_count {
                response.add_natural(added as u128);
            } else {
                response.add_simple_string("OK");
            }
        },
        Some(_) => response.add_reply_wrong_type(),
        None => {
            let mut hash = HashObj::new();
            let added = set_pairs(&mut hash, values);
            db.insert(key.copy(), RObj::Hash(hash));
            if respond_with_count {
                response.add_natural(added as u128);
            } else {
                response.add_simple_string("OK");
            }
        },
    }
    Ok(())
}

/// Handles `HSET`.
pub fn hset_command(db: &mut Database, request: &Request, response: &mut Response, now: u128) -> (r:
    Result<()>)
    requires
        old(db).wf(),
    ensures
        final(db).wf(),
        handled(
            r,
            request@.len() >= 2,
            old(db)@,
            old(response)@,
            final(db)@,
            final(response)@,
            hset_effect(old(db)@, request@, now, true),
        ),
{
    generic_hset_command(db, request, response, true, now)
}

/// Handles `HMSET`.
pub fn hmset_command(db: &mut Database, request: &Request, response: &mut Response, now: u128) -> (r:
    Result<()>)
    requires
        old(db).wf(),
    ensures
        final(db).wf(),
        handled(
            r,
            request@.len() >= 2,
            old(db)@,
            old(response)@,
            final(db)@,
            final(response)@,
            hset_effect(old(db)@, request@, now, false),
        ),
{
    generic_hset_command(db, request, response, false, now)
}

/// The reply for one field of a hash: its value, or the null string.
pub open spec fn field_reply(h: Seq<(Seq<u8>, Seq<u8>)>, field: Seq<u8>) -> Seq<u8> {
    match field_value(h, field) {
        Some(value) => bulk_frame(value),
        None => null_string_frame(),
    }
}

/// `HGET key field`.
pub open spec fn hget_effect(s: Seq<Slot>, a: Seq<Seq<u8>>, now: u128) -> Effect {
    let found = lookup(s, a[1], now);
    Effect {
        db: purged(s, a[1], now),
        reply: if holds_other(found) {
            wrong_type_reply()
        } else {
            field_reply(fields_of(found), a[2])
        },
    }
}

/// Adds the reply for one field of a hash.
fn add_field_reply(response: &mut Response, hash: &HashObj, field: &ByteString)
    ensures
        final(response)@ == old(response)@ + field_reply(hash@, field@),
{
    match hash.get(field) {
        Some(value) => response.add_bulk_string(value),
        None => response.add_null_string(),
    }
}

/// Handles `HGET`.
pub fn hget_command(db: &mut Database, request: &Request, response: &mut Response, now: u128) -> (r:
    Result<()>)
    requires
        old(db).wf(),
    ensures
        final(db).wf(),
        handled(
            r,
            request@.len() >= 3,
            old(db)@,
            old(response)@,
            final(db)@,
            final(response)@,
            hget_effect(old(db)@, request@, now),
        ),
{
    let hash_key = request.arg(1)?;
    let key = request.arg(0)?;
    match db.get_at(key, now) {
        Some(RObj::Hash(hash)) => add_field_reply(response, hash, hash_key),
        Some(_) => response.add_reply_wrong_type(),
        None => {
            let empty = HashObj::new();
            add_field_reply(response, &empty, hash_key);
        },
    }
    Ok(())
}

/// The replies for the first `n` of the given fields of a hash.
pub open spec fn field_replies(h: Seq<(Seq<u8>, Seq<u8>)>, fields: Seq<Seq<u8>>, n: int) -> Seq<u8>
    decreases n,
{
    if n <= 0 {
        Seq::<u8>::empty()
    } else {
        field_replies(h, fields, n - 1) + field_reply(h, fields[n - 1])
    }
}

/// `HMGET key field [field ...]`: one reply for each field asked for, be
/// the key present or not.
pub open spec fn hmget_effect(s: Seq<Slot>, a: Seq<Seq<u8>>, now: u128) -> Effect {
    let found = lookup(s, a[1], now);
    let fields = a.skip(2);
    Effect {
        db: purged(s, a[1], now),
        reply: if holds_other(found) {
            wrong_type_reply()
        } else {
            array_frame(fields.len() as int) + field_replies(
                fields_of(found),
                fields,
                fields.len() as int,
            )
        },
    }
}

/// Adds the header of an array and the reply for each of the given fields.
fn add_field_replies(response: &mut Response, hash: &HashObj, fields: &[ByteString])
    ensures
        final(response)@ == old(response)@ + (array_frame(fields@.len() as int) + field_replies(
            hash@,
            views(fields@),
            fields@.len() as int,
        )),
{
    response.add_array_of(fields.len() as u128);
    let ghost begun = response@;
    let mut n: usize = 0;
    while n < fields.len()
        invariant
            n <= fields.len(),
            response@ == begun + field_replies(hash@, views(fields@), n as int),
        decreases fields.len() - n,
    {
        proof {
            lemma_views_edit(fields@, fields@[0], n as int);
        }
        add_field_reply(response, hash, &fields[n]);
        n += 1;
        assert(response@ =~= begun + field_replies(hash@, views(fields@), n as int));
    }
    assert(response@ =~= old(response)@ + (array_frame(fields@.len() as int) + field_replies(
        hash@,
        views(fields@),
        fields@.len() as int,
    )));
}

/// Handles `HMGET`.
pub fn hmget_command(db: &mut Database, request: &Request, response: &mut Response, now: u128) -> (r:
    Result<()>)
    requires
        old(db).wf(),
    ensures
        final(db).wf(),
        handled(
            r,
            request@.len() >= 2,
            old(db)@,
            old(response)@,
            final(db)@,
            final(response)@,
            hmget_effect(old(db)@, request@, now),
        ),
{
    let key = request.arg(0)?;
    let hash_keys = request.arguments_from(1);
    match db.get_at(key, now) {
        Some(RObj::Hash(hash)) => add_field_replies(response, hash, hash_keys),
        Some(_) => response.add_reply_wrong_type(),
        None => {
            let empty = HashObj::new();
            add_field_replies(response, &empty, hash_keys);
        },
    }
    Ok(())
}

/// The first `n` pairs of a hash, each as two bulk strings: the field, then
/// its value.
pub open spec fn pair_frames(h: Seq<(Seq<u8>, Seq<u8>)>, n: int) -> Seq<u8>
    decreases n,
{
    if n <= 0 {
        Seq::<u8>::empty()
    } else {
        pair_frames(h, n - 1) + bulk_frame(h[n - 1].0) + bulk_frame(h[n - 1].1)
    }
}

/// `HGETALL key`.
pub open spec fn hgetall_effect(s: Seq<Slot>, a: Seq<Seq<u8>>, now: u128) -> Effect {
    let found = lookup(s, a[1], now);
    let h = fields_of(found);
    Effect {
        db: purged(s, a[1], now),
        reply: if holds_other(found) {
            wrong_type_reply()
        } else {
            array_frame(2 * (h.len() as int)) + pair_frames(h, h.len() as int)
        },
    }
}

/// Handles `HGETALL`.
pub fn hgetall_command(db: &mut Database, request: &Request, response: &mut Response, now: u128) -> (r:
    Result<()>)
    requires
        old(db).wf(),
    ensures
        final(db).wf(),
        handled(
            r,
            request@.len() >= 2,
            old(db)@,
            old(response)@,
            final(db)@,
            final(response)@,
            hgetall_effect(old(db)@, request@, now),
        ),
{
    let key = request.arg(0)?;
    match db.get_at(key, now) {
        Some(RObj::Hash(hash)) => {
            let len = hash.len();
            response.add_array_of(2 * (len as u128));
            let ghost begun = response@;
            let mut n: usize = 0;
            while n < len
                invariant
                    n <= len,
                    len == hash@.len(),
                    response@ == begun + pair_frames(hash@, n as int),
                decreases len - n,
            {
                let (field, value) = hash.entry(n);
                response.add_bulk_string(field);
                response.add_bulk_string(value);
                n += 1;
                assert(response@ =~= begun + pair_frames(hash@, n as int));
            }
            assert(response@ =~= old(response)@ + (array_frame(2 * (hash@.len() as int)) + pair_frames(
                hash@,
                hash@.len() as int,
            )));
        },
        Some(_) => response.add_reply_wrong_type(),
        None => {
            response.add_array_len(0);
        },
    }
    Ok(())
}

} // verus!
