//! The commands on lists.

use crate::byte_string::from_bytes::parsed;
use crate::byte_string::{lemma_views_edit, lower_bytes, views, ByteString};
use crate::commands::{handled, ok_reply, syntax_error_reply, Effect};
use crate::db::{
    inserted, lemma_found_stays, lemma_inserted_same, lookup, purged, removed, Database, RObj, Slot,
    Value,
};
use crate::errors::{Error, Result};
use crate::request::Request;
use crate::response::{
    array_frame, bulk_frame, bulk_frames, error_frame, integer_frame, null_string_frame, Response,
};
use crate::response_ext::{not_a_number_reply, text, wrong_type_reply, ResponseExt};
use std::collections::VecDeque;
use vstd::prelude::*;

verus! {

/// The place that an offset names in a list of `len` items: counted from
/// the front where it is not negative, from the end where it is. The
/// result lies outside the list where the offset does.
pub open spec fn index_of_offset(offset: int, len: int) -> int {
    if offset < 0 {
        len + offset
    } else {
        offset
    }
}

pub fn to_index(offset: isize, len: usize) -> (r: Result<isize>)
    ensures
        match r {
            Ok(index) => index == index_of_offset(offset as int, len as int),
            Err(Error::CastingInt(_)) => offset < 0 && len > isize::MAX,
            Err(_) => false,
        },
{
    if offset < 0 {
        match signed_len(len) {
            Ok(anchor) => Ok(anchor + offset),
            Err(e) => Err(e),
        }
    } else {
        Ok(offset)
    }
}

/// The first and the last place of a range, held inside a list of `len`
/// items: the first not below the front, the last not beyond the end.
pub fn clamp(start: isize, end: isize, len: usize) -> (r: Result<(usize, usize)>)
    requires
        len > 0,
    ensures
        match r {
            Ok((first, last)) => end >= 0 && first == (if start < 0 {
                0
            } else {
                start as int
            }) && last == (if end < len - 1 {
                end as int
            } else {
                len - 1
            }),
            Err(Error::CastingInt(_)) => end < 0,
            Err(_) => false,
        },
{
    let first: usize = if start < 0 {
        0
    } else {
        start as usize
    };
    match usize::try_from(end) {
        Ok(end) => {
            let last = if end < len - 1 {
                end
            } else {
                len - 1
            };
            Ok((first, last))
        },
        Err(e) => Err(Error::CastingInt(e)),
    }
}

/// An owned copy of each item.
pub fn copy_all(items: &[ByteString]) -> (r: Vec<ByteString>)
    ensures
        views(r@) == views(items@),
{
    let mut out: Vec<ByteString> = Vec::with_capacity(items.len());
    let mut i: usize = 0;
    while i < items.len()
        invariant
            i <= items.len(),
            out@.len() == i,
            forall|j: int| 0 <= j < i ==> (#[trigger] out@[j])@ == items@[j]@,
        decreases items.len() - i,
    {
        out.push(items[i].copy());
        i += 1;
    }
    assert(views(out@) =~= views(items@));
    out
}

/// What a list command does to a key that holds no list: the reply for a
/// value of another type, or the given effect for a key that is absent.
pub open spec fn unless_list(s: Seq<Slot>, key: Seq<u8>, now: u128, absent: Effect) -> Effect {
    match lookup(s, key, now) {
        Some(_) => Effect { db: purged(s, key, now), reply: wrong_type_reply() },
        None => absent,
    }
}

/// `RPUSH key value [value ...]`.
pub open spec fn rpush_effect(s: Seq<Slot>, a: Seq<Seq<u8>>, now: u128) -> Effect {
    let read = purged(s, a[1], now);
    let values = a.skip(2);
    match lookup(s, a[1], now) {
        Some(Value::List(l)) => Effect {
            db: inserted(read, a[1], Value::List(l + values)),
            reply: integer_frame((l.len() + values.len()) as int),
        },
        _ => unless_list(
            s,
            a[1],
            now,
            Effect {
                db: inserted(read, a[1], Value::List(values)),
                reply: integer_frame(values.len() as int),
            },
        ),
    }
}

/// Handles `RPUSH`.
pub fn rpush_command(db: &mut Database, request: &Request, response: &mut Response, now: u128) -> (r:
    Result<()>)
    requires
        old(db).wf(),
    ensures
        final(db).wf(),
        handled(
            r,
            request@.len() >= 2,
            old(db)@,
            old(response)@,
            final(db)@,
            final(response)@,
            rpush_effect(old(db)@, request@, now),
        ),
{
    let key = request.arg(0)?;
    let values = request.arguments_from(1);
    proof {
        if lookup(db@, key@, now) is Some {
            lemma_found_stays(db@, key@, now);
            lemma_inserted_same(db@, key@);
        }
    }
    match db.get_mut_at(key, now) {
        Some(RObj::List(list)) => {
            let ghost before = views(list@);
            let mut i: usize = 0;
            while i < values.len()
                invariant
                    i <= values.len(),
                    views(list@) == before + views(values@).take(i as int),
                decreases values.len() - i,
            {
                let value = values[i].copy();
                proof {
                    lemma_views_edit(list@, value, 0);
                    lemma_views_edit(values@, value, i as int);
                }
                list.push_back(value);
                i += 1;
                assert(views(list@) =~= before + views(values@).take(i as int));
            }
            assert(views(values@).take(values.len() as int) =~= views(values@));
            response.add_natural(list.len() as u128);
        },
        Some(_) => response.add_reply_wrong_type(),
        None => {
            db.insert(key.copy(), RObj::new_list_from(copy_all(values)));
            response.add_natural(values.len() as u128);
        },
    }
    Ok(())
}

/// `LPUSH key value [value ...]`: each value goes to the front in turn, so
/// the last one given ends up first.
pub open spec fn lpush_effect(s: Seq<Slot>, a: Seq<Seq<u8>>, now: u128) -> Effect {
    let read = purged(s, a[1], now);
    let values = a.skip(2);
    match lookup(s, a[1], now) {
        Some(Value::List(l)) => Effect {
            db: inserted(read, a[1], Value::List(values.reverse() + l)),
            reply: integer_frame((l.len() + values.len()) as int),
        },
        _ => unless_list(
            s,
            a[1],
            now,
            Effect {
                db: inserted(read, a[1], Value::List(values.reverse())),
                reply: integer_frame(values.len() as int),
            },
        ),
    }
}

/// Puts each value at the front of the list in turn.
fn push_all_front(list: &mut VecDeque<ByteString>, values: &[ByteString])
    ensures
        views(final(list)@) == views(values@).reverse() + views(old(list)@),
        final(list)@.len() == old(list)@.len() + values@.len(),
{
    let ghost before = views(list@);
    let mut i: usize = 0;
    while i < values.len()
        invariant
            i <= values.len(),
            list@.len() == old(list)@.len() + i,
            views(list@) == views(values@).take(i as int).reverse() + before,
        decreases values.len() - i,
    {
        let value = values[i].copy();
        proof {
            lemma_views_edit(list@, value, 0);
            lemma_views_edit(values@, value, i as int);
        }
        list.push_front(value);
        i += 1;
        assert(views(list@) =~= views(values@).take(i as int).reverse() + before);
    }
    assert(views(values@).take(values.len() as int) =~= views(values@));
}

/// Handles `LPUSH`.
pub fn lpush_command(db: &mut Database, request: &Request, response: &mut Response, now: u128) -> (r:
    Result<()>)
    requires
        old(db).wf(),
    ensures
        final(db).wf(),
        handled(
            r,
            request@.len() >= 2,
            old(db)@,
            old(response)@,
            final(db)@,
            final(response)@,
            lpush_effect(old(db)@, request@, now),
        ),
{
    let key = request.arg(0)?;
    let values = request.arguments_from(1);
    proof {
        if lookup(db@, key@, now) is Some {
            lemma_found_stays(db@, key@, now);
            lemma_inserted_same(db@, key@);
        }
    }
    match db.get_mut_at(key, now) {
        Some(RObj::List(list)) => {
            push_all_front(list, values);
            response.add_natural(list.len() as u128);
        },
        Some(_) => response.add_reply_wrong_type(),
        None => {
            let mut list: VecDeque<ByteString> = VecDeque::new();
            push_all_front(&mut list, values);
            assert(views(list@) =~= views(values@).reverse());
            db.insert(key.copy(), RObj::List(list));
            response.add_natural(values.len() as u128);
        },
    }
    Ok(())
}

/// The first place at which the value occurs in the list, if it occurs.
pub open spec fn first_place(l: Seq<Seq<u8>>, value: Seq<u8>) -> Option<int>
    decreases l.len(),
{
    if l.len() == 0 {
        None
    } else if l[0] == value {
        Some(0)
    } else {
        match first_place(l.skip(1), value) {
            Some(i) => Some(i + 1),
            None => None,
        }
    }
}

/// The first place of a value is the place before which it does not occur
/// and at which it does.
pub proof fn lemma_first_place(l: Seq<Seq<u8>>, value: Seq<u8>, i: int)
    requires
        0 <= i <= l.len(),
        forall|j: int| 0 <= j < i ==> #[trigger] l[j] != value,
        i < l.len() ==> l[i] == value,
    ensures
        first_place(l, value) == if i < l.len() {
            Some(i)
        } else {
            None
        },
    decreases l.len(),
{
    if l.len() > 0 && i > 0 {
        let rest = l.skip(1);
        assert forall|j: int| 0 <= j < i - 1 implies #[trigger] rest[j] != value by {
            assert(rest[j] == l[j + 1]);
        }
        lemma_first_place(rest, value, i - 1);
    }
}

/// The first place at which the value occurs in the list, if it does.
fn find_first(list: &VecDeque<ByteString>, value: &ByteString) -> (r: Option<usize>)
    ensures
        match r {
            Some(i) => first_place(views(list@), value@) == Some(i as int) && i < list@.len(),
            None => first_place(views(list@), value@) is None,
        },
{
    let ghost l = views(list@);
    let mut i: usize = 0;
    while i < list.len()
        invariant
            i <= list.len(),
            l == views(list@),
            l.len() == list@.len(),
            forall|j: int| 0 <= j < i ==> #[trigger] l[j] != value@,
        decreases list.len() - i,
    {
        if list[i].eq_bytes(value) {
            assert(l[i as int] == value@);
            proof {
                lemma_first_place(l, value@, i as int);
            }
            return Some(i);
        }
        assert(l[i as int] == list@[i as int]@);
        i += 1;
    }
    proof {
        lemma_first_place(l, value@, l.len() as int);
    }
    None
}

/// `LINSERT key BEFORE|AFTER pivot value`.
pub open spec fn linsert_effect(s: Seq<Slot>, a: Seq<Seq<u8>>, now: u128) -> Effect {
    let read = purged(s, a[1], now);
    match lookup(s, a[1], now) {
        Some(Value::List(l)) => match first_place(l, a[3]) {
            None => Effect { db: read, reply: integer_frame(-1) },
            Some(place) => if lower_bytes(a[2]) == text("before") {
                Effect {
                    db: inserted(read, a[1], Value::List(l.insert(place, a[4]))),
                    reply: integer_frame(l.len() as int + 1),
                }
            } else if lower_bytes(a[2]) == text("after") {
                Effect {
                    db: inserted(read, a[1], Value::List(l.insert(place + 1, a[4]))),
                    reply: integer_frame(l.len() as int + 1),
                }
            } else {
                Effect { db: read, reply: syntax_error_reply() }
            },
        },
        _ => unless_list(s, a[1], now, Effect { db: read, reply: integer_frame(0) }),
    }
}

/// Handles `LINSERT`.
pub fn linsert_command(db: &mut Database, request: &Request, response: &mut Response, now: u128) -> (r:
    Result<()>)
    requires
        old(db).wf(),
    ensures
        final(db).wf(),
        handled(
            r,
            request@.len() >= 5,
            old(db)@,
            old(response)@,
            final(db)@,
            final(response)@,
            linsert_effect(old(db)@, request@, now),
        ),
{
    let value = request.arg(3)?;
    let key = request.arg(0)?;
    let side = request.arg(1)?;
    let pivot = request.arg(2)?;
    proof {
        if lookup(db@, key@, now) is Some {
            lemma_found_stays(db@, key@, now);
            lemma_inserted_same(db@, key@);
        }
    }
    match db.get_mut_at(key, now) {
        Some(RObj::List(list)) => {
            match find_first(list, pivot) {
                Some(place) => {
                    let word = side.to_lowercase();
                    let ghost before = views(list@);
                    let item = value.copy();
                    let len = list.len();
                    proof {
                        lemma_views_edit(list@, item, place as int);
                        lemma_views_edit(list@, item, place + 1);
                    }
                    if word.eq_bytes("before") {
                        list.insert(place, item);
                        response.add_natural(list.len() as u128);
                    } else if word.eq_bytes("after") {
                        list.insert(place + 1, item);
                        response.add_natural(list.len() as u128);
                    } else {
                        response.add_error("ERR syntax error");
                    }
                },
                None => {
                    response.add_integer(-1);
                },
            }
        },
        Some(_) => response.add_reply_wrong_type(),
        None => response.add_integer(0),
    }
    Ok(())
}

/// `RPOP key`.
pub open spec fn rpop_effect(s: Seq<Slot>, a: Seq<Seq<u8>>, now: u128) -> Effect {
    let read = purged(s, a[1], now);
    match lookup(s, a[1], now) {
        Some(Value::List(l)) => if l.len() > 0 {
            Effect {
                db: inserted(read, a[1], Value::List(l.drop_last())),
                reply: bulk_frame(l.last()),
            }
        } else {
            Effect { db: read, reply: null_string_frame() }
        },
        _ => unless_list(s, a[1], now, Effect { db: read, reply: null_string_frame() }),
    }
}

/// Handles `RPOP`.
pub fn rpop_command(db: &mut Database, request: &Request, response: &mut Response, now: u128) -> (r:
    Result<()>)
    requires
        old(db).wf(),
    ensures
        final(db).wf(),
        handled(
            r,
            request@.len() >= 2,
            old(db)@,
            old(response)@,
            final(db)@,
            final(response)@,
            rpop_effect(old(db)@, request@, now),
        ),
{
    let key = request.arg(0)?;
    proof {
        if lookup(db@, key@, now) is Some {
            lemma_found_stays(db@, key@, now);
            lemma_inserted_same(db@, key@);
        }
    }
    match db.get_mut_at(key, now) {
        Some(RObj::List(list)) => {
            let ghost before = views(list@);
            proof {
                if list@.len() > 0 {
                    lemma_views_edit(list@, list@[0], list@.len() - 1);
                }
            }
            match list.pop_back() {
                Some(value) => {
                    assert(views(list@) =~= before.drop_last());
                    response.add_bulk_string(&value);
                },
                None => {
                    response.add_null_string();
                },
            }
        },
        Some(_) => response.add_reply_wrong_type(),
        None => {
            response.add_null_string();
        },
    }
    Ok(())
}

/// `LPOP key`.
pub open spec fn lpop_effect(s: Seq<Slot>, a: Seq<Seq<u8>>, now: u128) -> Effect {
    let read = purged(s, a[1], now);
    match lookup(s, a[1], now) {
        Some(Value::List(l)) => if l.len() > 0 {
            Effect { db: inserted(read, a[1], Value::List(l.skip(1))), reply: bulk_frame(l[0]) }
        } else {
            Effect { db: read, reply: null_string_frame() }
        },
        _ => unless_list(s, a[1], now, Effect { db: read, reply: null_string_frame() }),
    }
}

/// Handles `LPOP`.
pub fn lpop_command(db: &mut Database, request: &Request, response: &mut Response, now: u128) -> (r:
    Result<()>)
    requires
        old(db).wf(),
    ensures
        final(db).wf(),
        handled(
            r,
            request@.len() >= 2,
            old(db)@,
            old(response)@,
            final(db)@,
            final(response)@,
            lpop_effect(old(db)@, request@, now),
        ),
{
    let key = request.arg(0)?;
    proof {
        if lookup(db@, key@, now) is Some {
            lemma_found_stays(db@, key@, now);
            lemma_inserted_same(db@, key@);
        }
    }
    match db.get_mut_at(key, now) {
        Some(RObj::List(list)) => {
            let ghost before = views(list@);
            proof {
                if list@.len() > 0 {
                    lemma_views_edit(list@, list@[0], 1);
                }
            }
            match list.pop_front() {
                Some(value) => {
                    assert(views(list@) =~= before.skip(1));
                    response.add_bulk_string(&value);
                },
                None => {
                    response.add_null_string();
                },
            }
        },
        Some(_) => response.add_reply_wrong_type(),
        None => {
            response.add_null_string();
        },
    }
    Ok(())
}

/// `LLEN key`.
pub open spec fn llen_effect(s: Seq<Slot>, a: Seq<Seq<u8>>, now: u128) -> Effect {
    let read = purged(s, a[1], now);
    match lookup(s, a[1], now) {
        Some(Value::List(l)) => Effect { db: read, reply: integer_frame(l.len() as int) },
        _ => unless_list(s, a[1], now, Effect { db: read, reply: integer_frame(0) }),
    }
}

/// Handles `LLEN`.
pub fn llen_command(db: &mut Database, request: &Request, response: &mut Response, now: u128) -> (r:
    Result<()>)
    requires
        old(db).wf(),
    ensures
        final(db).wf(),
        handled(
            r,
            request@.len() >= 2,
            old(db)@,
            old(response)@,
            final(db)@,
            final(response)@,
            llen_effect(old(db)@, request@, now),
        ),
{
    let key = request.arg(0)?;
    match db.get_at(key, now) {
        Some(RObj::List(value)) => response.add_natural(value.len() as u128),
        Some(_) => response.add_reply_wrong_type(),
        None => response.add_integer(0),
    }
    Ok(())
}

/// The key holds a list of more items than an `isize` counts.
pub open spec fn too_long(s: Seq<Slot>, key: Seq<u8>, now: u128) -> bool {
    lookup(s, key, now) matches Some(Value::List(l)) && l.len() > isize::MAX
}

/// The length of a list as a signed number.
fn signed_len(len: usize) -> (r: Result<isize>)
    ensures
        match r {
            Ok(n) => n == len,
            Err(Error::CastingInt(_)) => len > isize::MAX,
            Err(_) => false,
        },
{
    let wide = match i64::try_from(len) {
        Ok(wide) => wide,
        Err(e) => {
            return Err(Error::CastingInt(e));
        },
    };
    match isize::try_from(wide) {
        Ok(n) => Ok(n),
        Err(e) => Err(Error::CastingInt(e)),
    }
}

/// What a command that reads one place of a list replies.
pub open spec fn item_reply(l: Seq<Seq<u8>>, offset: int) -> Seq<u8> {
    let i = index_of_offset(offset, l.len() as int);
    if 0 <= i < l.len() {
        bulk_frame(l[i])
    } else {
        null_string_frame()
    }
}

/// `LINDEX key index`.
pub open spec fn lindex_effect(s: Seq<Slot>, a: Seq<Seq<u8>>, now: u128) -> Effect {
    let read = purged(s, a[1], now);
    match lookup(s, a[1], now) {
        Some(Value::List(l)) => match parsed(a[2], isize::MIN as int, isize::MAX as int) {
            None => Effect { db: read, reply: not_a_number_reply() },
            Some(offset) => Effect { db: read, reply: item_reply(l, offset) },
        },
        _ => unless_list(s, a[1], now, Effect { db: read, reply: null_string_frame() }),
    }
}

/// Handles `LINDEX`.
pub fn lindex_command(db: &mut Database, request: &Request, response: &mut Response, now: u128) -> (r:
    Result<()>)
    requires
        old(db).wf(),
    ensures
        final(db).wf(),
        handled(
            r,
            request@.len() >= 3 && !too_long(old(db)@, request@[1], now),
            old(db)@,
            old(response)@,
            final(db)@,
            final(response)@,
            lindex_effect(old(db)@, request@, now),
        ),
{
    let key = request.arg(0)?;
    let place = request.arg(1)?;
    proof {
        if lookup(db@, key@, now) is Some {
            lemma_found_stays(db@, key@, now);
        }
    }
    match db.get_at(key, now) {
        Some(RObj::List(list)) => {
            let len = signed_len(list.len())?;
            let offset: isize = match place.parse::<isize>() {
                Ok(n) => n,
                Err(_) => {
                    response.add_reply_not_a_number();
                    return Ok(());
                },
            };
            let index = to_index(offset, list.len())?;
            if 0 <= index && index < len {
                proof {
                    lemma_views_edit(list@, list@[0], index as int);
                }
                response.add_bulk_string(&list[index as usize]);
            } else {
                response.add_null_string();
            }
        },
        Some(_) => response.add_reply_wrong_type(),
        None => response.add_null_string(),
    }
    Ok(())
}

/// `LSET key index value`.
pub open spec fn lset_effect(s: Seq<Slot>, a: Seq<Seq<u8>>, now: u128) -> Effect {
    let read = purged(s, a[1], now);
    match lookup(s, a[1], now) {
        Some(Value::List(l)) => match parsed(a[2], isize::MIN as int, isize::MAX as int) {
            None => Effect { db: read, reply: not_a_number_reply() },
            Some(offset) => {
                let i = index_of_offset(offset, l.len() as int);
                if 0 <= i < l.len() {
                    Effect { db: inserted(read, a[1], Value::List(l.update(i, a[3]))), reply: ok_reply() }
                } else {
                    Effect { db: read, reply: error_frame(text("ERR index out of range")) }
                }
            },
        },
        _ => unless_list(
            s,
            a[1],
            now,
            Effect { db: read, reply: error_frame(text("ERR no such key")) },
        ),
    }
}

/// Handles `LSET`.
pub fn lset_command(db: &mut Database, request: &Request, response: &mut Response, now: u128) -> (r:
    Result<()>)
    requires
        old(db).wf(),
    ensures
        final(db).wf(),
        handled(
            r,
            request@.len() >= 4 && !too_long(old(db)@, request@[1], now),
            old(db)@,
            old(response)@,
            final(db)@,
            final(response)@,
            lset_effect(old(db)@, request@, now),
        ),
{
    let new_value = request.arg(2)?;
    let key = request.arg(0)?;
    let place = request.arg(1)?;
    proof {
        if lookup(db@, key@, now) is Some {
            lemma_found_stays(db@, key@, now);
            lemma_inserted_same(db@, key@);
        }
    }
    let mut failed: Option<Error> = None;
    match db.get_mut_at(key, now) {
        Some(RObj::List(list)) => {
            match signed_len(list.len()) {
                Err(e) => {
                    failed = Some(e);
                },
                Ok(len) => {
                    match place.parse::<isize>() {
                        Err(_) => {
                            response.add_reply_not_a_number();
                        },
                        Ok(offset) => {
                            let index = if offset < 0 {
                                len + offset
                            } else {
                                offset
                            };
                            if 0 <= index && index < len {
                                let ghost before = views(list@);
                                let item = new_value.copy();
                                proof {
                                    lemma_views_edit(list@, item, index as int);
                                    lemma_views_edit(list@.remove(index as int), item, index as int);
                                }
                                list.remove(index as usize);
                                list.insert(index as usize, item);
                                assert(views(list@) =~= before.update(index as int, new_value@));
                                response.add_simple_string("OK");
                            } else {
                                response.add_error("ERR index out of range");
                            }
                        },
                    }
                },
            }
        },
        Some(_) => response.add_reply_wrong_type(),
        None => response.add_error("ERR no such key"),
    }
    match failed {
        Some(e) => Err(e),
        None => Ok(()),
    }
}

/// The first and the last place of the range that two offsets name in a
/// list of `len` items, held inside the list; `None` where the range holds
/// no item.
pub open spec fn range_of(start: int, end: int, len: int) -> Option<(int, int)> {
    let first = index_of_offset(start, len);
    let last = index_of_offset(end, len);
    if len == 0 || first > last || last < 0 || first >= len {
        None
    } else {
        Some(
            (
                if first < 0 {
                    0
                } else {
                    first
                },
                if last < len - 1 {
                    last
                } else {
                    len - 1
                },
            ),
        )
    }
}

/// The range that two offsets name in a list of `len` items.
fn resolve_range(start: isize, end: isize, len: usize) -> (r: Option<(usize, usize)>)
    requires
        len <= isize::MAX,
    ensures
        match r {
            Some((first, last)) => range_of(start as int, end as int, len as int) == Some(
                (first as int, last as int),
            ) && first <= last < len,
            None => range_of(start as int, end as int, len as int) is None,
        },
{
    let first = match to_index(start, len) {
        Ok(i) => i,
        Err(_) => {
            return None;
        },
    };
    let last = match to_index(end, len) {
        Ok(i) => i,
        Err(_) => {
            return None;
        },
    };
    if len == 0 || first > last || last < 0 || first >= len as isize {
        return None;
    }
    match clamp(first, last, len) {
        Ok(range) => Some(range),
        Err(_) => None,
    }
}

/// `LRANGE key start stop`.
pub open spec fn lrange_effect(s: Seq<Slot>, a: Seq<Seq<u8>>, now: u128) -> Effect {
    let read = purged(s, a[1], now);
    match lookup(s, a[1], now) {
        Some(Value::List(l)) => match parsed(a[2], isize::MIN as int, isize::MAX as int) {
            None => Effect { db: read, reply: not_a_number_reply() },
            Some(start) => match parsed(a[3], isize::MIN as int, isize::MAX as int) {
                None => Effect { db: read, reply: not_a_number_reply() },
                Some(end) => match range_of(start, end, l.len() as int) {
                    None => Effect { db: read, reply: array_frame(0) },
                    Some((first, last)) => Effect {
                        db: read,
                        reply: array_frame(last - first + 1) + bulk_frames(
                            l.subrange(first, last + 1),
                        ),
                    },
                },
            },
        },
        _ => unless_list(s, a[1], now, Effect { db: read, reply: array_frame(0) }),
    }
}

/// Handles `LRANGE`.
pub fn lrange_command(db: &mut Database, request: &Request, response: &mut Response, now: u128) -> (r:
    Result<()>)
    requires
        old(db).wf(),
    ensures
        final(db).wf(),
        handled(
            r,
            request@.len() >= 4 && !too_long(old(db)@, request@[1], now),
            old(db)@,
            old(response)@,
            final(db)@,
            final(response)@,
            lrange_effect(old(db)@, request@, now),
        ),
{
    let stop = request.arg(2)?;
    let key = request.arg(0)?;
    let begin = request.arg(1)?;
    proof {
        if lookup(db@, key@, now) is Some {
            lemma_found_stays(db@, key@, now);
        }
    }
    match db.get_at(key, now) {
        Some(RObj::List(list)) => {
            let _ = signed_len(list.len())?;
            let start: isize = match begin.parse::<isize>() {
                Ok(n) => n,
                Err(_) => {
                    response.add_reply_not_a_number();
                    return Ok(());
                },
            };
            let end: isize = match stop.parse::<isize>() {
                Ok(n) => n,
                Err(_) => {
                    response.add_reply_not_a_number();
                    return Ok(());
                },
            };
            match resolve_range(start, end, list.len()) {
                None => {
                    response.add_array_len(0);
                },
                Some((first, last)) => {
                    let ghost l = views(list@);
                    let ghost wanted = l.subrange(first as int, last + 1);
                    let total = list.len();
                    response.add_array_of((last - first + 1) as u128);
                    let ghost begun = response@;
                    let mut i: usize = first;
                    while i <= last
                        invariant
                            first <= i <= last + 1,
                            last < total,
                            total == list@.len(),
                            l == views(list@),
                            wanted == l.subrange(first as int, last + 1),
                            response@ == begun + bulk_frames(wanted.take(i - first)),
                        decreases last + 1 - i,
                    {
                        proof {
                            lemma_views_edit(list@, list@[0], i as int);
                            assert(wanted.take(i - first + 1).drop_last() =~= wanted.take(
                                i - first,
                            ));
                            assert(wanted.take(i - first + 1).last() == l[i as int]);
                        }
                        response.add_bulk_string(&list[i]);
                        i += 1;
                        assert(response@ =~= begun + bulk_frames(wanted.take(i - first)));
                    }
                    assert(wanted.take(last + 1 - first) =~= wanted);
                    assert(response@ =~= old(response)@ + (array_frame(last - first + 1)
                        + bulk_frames(wanted)));
                },
            }
        },
        Some(_) => response.add_reply_wrong_type(),
        None => response.add_array_len(0),
    }
    Ok(())
}

/// `LTRIM key start stop`: the list keeps the items of the range, and the
/// key is removed where the range holds none.
pub open spec fn ltrim_effect(s: Seq<Slot>, a: Seq<Seq<u8>>, now: u128) -> Effect {
    let read = purged(s, a[1], now);
    match lookup(s, a[1], now) {
        Some(Value::List(l)) => match parsed(a[2], isize::MIN as int, isize::MAX as int) {
            None => Effect { db: read, reply: not_a_number_reply() },
            Some(start) => match parsed(a[3], isize::MIN as int, isize::MAX as int) {
                None => Effect { db: read, reply: not_a_number_reply() },
                Some(end) => match range_of(start, end, l.len() as int) {
                    None => Effect { db: removed(read, a[1]), reply: ok_reply() },
                    Some((first, last)) => Effect {
                        db: inserted(read, a[1], Value::List(l.subrange(first, last + 1))),
                        reply: ok_reply(),
                    },
                },
            },
        },
        _ => unless_list(s, a[1], now, Effect { db: read, reply: ok_reply() }),
    }
}

/// Cuts a list down to the items from `first` to `last`.
fn keep_range(list: &mut VecDeque<ByteString>, first: usize, last: usize)
    requires
        first <= last < old(list)@.len(),
    ensures
        views(final(list)@) == views(old(list)@).subrange(first as int, last + 1),
{
    let ghost whole = list@;
    let total = list.len();
    list.truncate(last + 1);
    let mut dropped: usize = 0;
    while dropped < first
        invariant
            dropped <= first,
            first <= last < whole.len(),
            list@ == whole.subrange(dropped as int, last + 1),
        decreases first - dropped,
    {
        list.pop_front();
        dropped += 1;
        assert(list@ =~= whole.subrange(dropped as int, last + 1));
    }
    assert(views(list@) =~= views(whole).subrange(first as int, last + 1));
}

/// What `LTRIM` found to do, once it has read its arguments.
enum Trim {
    Done,
    Delete,
    Failed(Error),
}

/// Handles `LTRIM`.
pub fn ltrim_command(db: &mut Database, request: &Request, response: &mut Response, now: u128) -> (r:
    Result<()>)
    requires
        old(db).wf(),
    ensures
        final(db).wf(),
        handled(
            r,
            request@.len() >= 4 && !too_long(old(db)@, request@[1], now),
            old(db)@,
            old(response)@,
            final(db)@,
            final(response)@,
            ltrim_effect(old(db)@, request@, now),
        ),
{
    let stop = request.arg(2)?;
    let key = request.arg(0)?;
    let begin = request.arg(1)?;
    proof {
        if lookup(db@, key@, now) is Some {
            lemma_found_stays(db@, key@, now);
            lemma_inserted_same(db@, key@);
        }
    }
    let mut outcome = Trim::Done;
    match db.get_mut_at(key, now) {
        Some(RObj::List(list)) => {
            match signed_len(list.len()) {
                Err(e) => {
                    outcome = Trim::Failed(e);
                },
                Ok(_) => {
                    match begin.parse::<isize>() {
                        Err(_) => {
                            response.add_reply_not_a_number();
                        },
                        Ok(start) => {
                            match stop.parse::<isize>() {
                                Err(_) => {
                                    response.add_reply_not_a_number();
                                },
                                Ok(end) => {
                                    match resolve_range(start, end, list.len()) {
                                        None => {
                                            outcome = Trim::Delete;
                                        },
                                        Some((first, last)) => {
                                            keep_range(list, first, last);
                                        },
                                    }
                                    response.add_simple_string("OK");
                                },
                            }
                        },
                    }
                },
            }
        },
        Some(_) => response.add_reply_wrong_type(),
        None => response.add_simple_string("OK"),
    }
    match outcome {
        Trim::Done => Ok(()),
        Trim::Delete => {
            db.remove(key);
            Ok(())
        },
        Trim::Failed(e) => Err(e),
    }
}

/// The list without occurrences of the value, taken out from the front:
/// all of them, or no more than `limit`.
pub open spec fn without_first(l: Seq<Seq<u8>>, value: Seq<u8>, all: bool, limit: nat) -> Seq<
    Seq<u8>,
>
    decreases l.len(),
{
    if l.len() == 0 {
        l
    } else if l[0] == value && (all || limit > 0) {
        without_first(
            l.skip(1),
            value,
            all,
            if all {
                limit
            } else {
                (limit - 1) as nat
            },
        )
    } else {
        seq![l[0]] + without_first(l.skip(1), value, all, limit)
    }
}

/// The list without occurrences of the value, taken out from the end: all
/// of them, or no more than `limit`.
pub open spec fn without_last(l: Seq<Seq<u8>>, value: Seq<u8>, all: bool, limit: nat) -> Seq<
    Seq<u8>,
>
    decreases l.len(),
{
    if l.len() == 0 {
        l
    } else if l.last() == value && (all || limit > 0) {
        without_last(
            l.drop_last(),
            value,
            all,
            if all {
                limit
            } else {
                (limit - 1) as nat
            },
        )
    } else {
        without_last(l.drop_last(), value, all, limit).push(l.last())
    }
}

/// The list that `LREM` leaves for a count: occurrences go from the front
/// for a positive count, from the end for a negative one, and all of them
/// for zero.
pub open spec fn lrem_list(l: Seq<Seq<u8>>, count: int, value: Seq<u8>) -> Seq<Seq<u8>> {
    if count < 0 {
        without_last(l, value, false, (-count) as nat)
    } else {
        without_first(l, value, count == 0, count as nat)
    }
}

/// `LREM key count value`.
pub open spec fn lrem_effect(s: Seq<Slot>, a: Seq<Seq<u8>>, now: u128) -> Effect {
    let read = purged(s, a[1], now);
    match lookup(s, a[1], now) {
        Some(Value::List(l)) => match parsed(a[2], i64::MIN as int, i64::MAX as int) {
            None => Effect { db: read, reply: not_a_number_reply() },
            Some(count) => Effect {
                db: inserted(read, a[1], Value::List(lrem_list(l, count, a[3]))),
                reply: integer_frame(l.len() - lrem_list(l, count, a[3]).len()),
            },
        },
        _ => unless_list(s, a[1], now, Effect { db: read, reply: integer_frame(0) }),
    }
}

/// Takes occurrences of the value out of the list, from the front; says how
/// many it took.
fn remove_from_front(list: &mut VecDeque<ByteString>, value: &ByteString, all: bool, limit: u64) -> (r:
    usize)
    ensures
        views(final(list)@) == without_first(views(old(list)@), value@, all, limit as nat),
        r == old(list)@.len() - final(list)@.len(),
{
    let ghost target = without_first(views(list@), value@, all, limit as nat);
    let start_len = list.len();
    let mut budget: u64 = limit;
    let mut removed: usize = 0;
    let mut i: usize = 0;
    assert(views(list@).take(0) + without_first(views(list@).skip(0), value@, all, budget as nat)
        =~= target) by {
        assert(views(list@).skip(0) =~= views(list@));
    }
    while i < list.len()
        invariant
            i <= list@.len(),
            removed + list@.len() == start_len,
            start_len == old(list)@.len(),
            views(list@).take(i as int) + without_first(
                views(list@).skip(i as int),
                value@,
                all,
                budget as nat,
            ) == target,
        decreases list@.len() - i,
    {
        let ghost l = views(list@);
        proof {
            lemma_views_edit(list@, list@[0], i as int);
            assert(l.skip(i as int).skip(1) =~= l.skip(i + 1));
            assert(l.skip(i as int)[0] == l[i as int]);
        }
        if (all || budget > 0) && list[i].eq_bytes(value) {
            list.remove(i);
            proof {
                let l2 = views(list@);
                assert(l2 =~= l.remove(i as int));
                assert(l2.take(i as int) =~= l.take(i as int));
                assert(l2.skip(i as int) =~= l.skip(i + 1));
            }
            if !all {
                budget -= 1;
            }
            removed += 1;
        } else {
            proof {
                assert(l.take(i + 1) =~= l.take(i as int) + seq![l[i as int]]);
                assert(l.take(i + 1) + without_first(l.skip(i + 1), value@, all, budget as nat)
                    =~= l.take(i as int) + (seq![l[i as int]] + without_first(
                    l.skip(i + 1),
                    value@,
                    all,
                    budget as nat,
                )));
            }
            i += 1;
        }
    }
    proof {
        let l = views(list@);
        assert(l.len() == list@.len());
        assert(l.skip(l.len() as int) =~= Seq::<Seq<u8>>::empty());
        assert(l.take(l.len() as int) =~= l);
        assert(l + Seq::<Seq<u8>>::empty() =~= l);
    }
    removed
}

/// Takes occurrences of the value out of the list, from the end; says how
/// many it took.
fn remove_from_back(list: &mut VecDeque<ByteString>, value: &ByteString, limit: u64) -> (r: usize)
    ensures
        views(final(list)@) == without_last(views(old(list)@), value@, false, limit as nat),
        r == old(list)@.len() - final(list)@.len(),
{
    let ghost target = without_last(views(list@), value@, false, limit as nat);
    let start_len = list.len();
    let mut budget: u64 = limit;
    let mut removed: usize = 0;
    let mut i: usize = list.len();
    assert(without_last(views(list@).take(i as int), value@, false, budget as nat) + views(
        list@,
    ).skip(i as int) =~= target) by {
        assert(views(list@).take(i as int) =~= views(list@));
    }
    while i > 0
        invariant
            i <= list@.len(),
            removed + list@.len() == start_len,
            start_len == old(list)@.len(),
            without_last(views(list@).take(i as int), value@, false, budget as nat) + views(
                list@,
            ).skip(i as int) == target,
        decreases i,
    {
        let ghost l = views(list@);
        proof {
            lemma_views_edit(list@, list@[0], i - 1);
            assert(l.take(i as int).drop_last() =~= l.take(i - 1));
            assert(l.take(i as int).last() == l[i - 1]);
        }
        if budget > 0 && list[i - 1].eq_bytes(value) {
            list.remove(i - 1);
            proof {
                let l2 = views(list@);
                assert(l2 =~= l.remove(i - 1));
                assert(l2.take(i - 1) =~= l.take(i - 1));
                assert(l2.skip(i - 1) =~= l.skip(i as int));
            }
            budget -= 1;
            removed += 1;
        } else {
            proof {
                assert(l.skip(i - 1) =~= seq![l[i - 1]] + l.skip(i as int));
                assert(without_last(l.take(i - 1), value@, false, budget as nat).push(l[i - 1])
                    + l.skip(i as int) =~= without_last(
                    l.take(i - 1),
                    value@,
                    false,
                    budget as nat,
                ) + l.skip(i - 1));
            }
        }
        i -= 1;
    }
    proof {
        let l = views(list@);
        assert(l.take(0) =~= Seq::<Seq<u8>>::empty());
        assert(l.skip(0) =~= l);
        assert(Seq::<Seq<u8>>::empty() + l =~= l);
    }
    removed
}

/// Handles `LREM`.
pub fn lrem_command(db: &mut Database, request: &Request, response: &mut Response, now: u128) -> (r:
    Result<()>)
    requires
        old(db).wf(),
    ensures
        final(db).wf(),
        handled(
            r,
            request@.len() >= 4,
            old(db)@,
            old(response)@,
            final(db)@,
            final(response)@,
            lrem_effect(old(db)@, request@, now),
        ),
{
    let value = request.arg(2)?;
    let key = request.arg(0)?;
    let amount = request.arg(1)?;
    proof {
        if lookup(db@, key@, now) is Some {
            lemma_found_stays(db@, key@, now);
            lemma_inserted_same(db@, key@);
        }
    }
    match db.get_mut_at(key, now) {
        Some(RObj::List(list)) => {
            match amount.parse::<i64>() {
                Err(_) => {
                    response.add_reply_not_a_number();
                },
                Ok(count) => {
                    let removed = if count < 0 {
                        let limit: u64 = ((-(count + 1)) as u64) + 1;
                        remove_from_back(list, value, limit)
                    } else {
                        remove_from_front(list, value, count == 0, count as u64)
                    };
                    response.add_natural(removed as u128);
                },
            }
        },
        Some(_) => response.add_reply_wrong_type(),
        None => response.add_integer(0),
    }
    Ok(())
}

} // verus!
