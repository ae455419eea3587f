//! The commands: what each does to the keyspace and what it replies, the
//! table that names them, and the dispatcher that checks a request's arity
//! before it hands the request to its handler.

pub mod hash_type;
pub mod keyspace;
pub mod list_type;
pub mod server;
pub mod string_type;

use crate::byte_string::{eq_ignoring_case, extend_bytes, extend_shown, lower_bytes, shown, ByteStr};
use crate::db::{Database, Slot};
use crate::errors::Result;
use crate::request::{shown_args, Request};
use crate::response::{error_frame, simple_frame, RespSym, Response};
use crate::response_ext::{text, wrong_arity_reply, ResponseExt};
use vstd::prelude::*;

verus! {

/// What a command does: the keyspace it leaves behind and the reply it adds.
pub struct Effect {
    pub db: Seq<Slot>,
    pub reply: Seq<u8>,
}

/// A command that only replies.
pub open spec fn reply_only(s: Seq<Slot>, reply: Seq<u8>) -> Effect {
    Effect { db: s, reply }
}

/// How a handler ends. Where it can do its work it succeeds, and has done
/// what the effect says; where it cannot it fails, and has changed nothing.
pub open spec fn handled(
    r: Result<()>,
    enough: bool,
    db_before: Seq<Slot>,
    reply_before: Seq<u8>,
    db_after: Seq<Slot>,
    reply_after: Seq<u8>,
    effect: Effect,
) -> bool {
    match r {
        Ok(_) => enough && db_after == effect.db && reply_after == reply_before + effect.reply,
        Err(_) => !enough && db_after == db_before && reply_after == reply_before,
    }
}

/// The reply `+OK`.
pub open spec fn ok_reply() -> Seq<u8> {
    simple_frame(text("OK"))
}

/// The reply to options that do not go together.
pub open spec fn syntax_error_reply() -> Seq<u8> {
    error_frame(text("ERR syntax error"))
}

/// The reply to an increment whose result 64 bits do not hold.
pub open spec fn overflow_reply() -> Seq<u8> {
    error_frame(text("ERR increment or decrement would overflow"))
}

/// The reply to a request that its handler could not serve.
pub open spec fn server_error_reply() -> Seq<u8> {
    error_frame(text("ERR server error"))
}

/// The reply to a command that the table does not name.
pub open spec fn unknown_command_reply(a: Seq<Seq<u8>>) -> Seq<u8> {
    error_frame(
        text("ERR unknown command `") + shown(a[0]) + text("`, with args beginning with: ")
            + vstd::utf8::encode_utf8(shown_args(a.skip(1))),
    )
}

/// The handler of a command.
#[derive(Clone, Copy, Debug, PartialEq, Eq, Structural)]
pub enum Handler {
    /// `GET`
    Get,
    /// `SET`
    Assign,
    /// `DEL`
    Del,
    /// `EXISTS`
    Exists,
    /// `EXPIRE`
    Expire,
    /// `PERSIST`
    Persist,
    /// `TTL`
    Ttl,
    /// `INCR`
    Incr,
    /// `DECR`
    Decr,
    /// `INCRBY`
    IncrBy,
    /// `DECRBY`
    DecrBy,
    /// `RPUSH`
    RPush,
    /// `LPUSH`
    LPush,
    /// `LINSERT`
    LInsert,
    /// `RPOP`
    RPop,
    /// `LPOP`
    LPop,
    /// `LLEN`
    LLen,
    /// `LINDEX`
    LIndex,
    /// `LSET`
    LSet,
    /// `LRANGE`
    LRange,
    /// `LTRIM`
    LTrim,
    /// `LREM`
    LRem,
    /// `HSET`
    HSet,
    /// `HGET`
    HGet,
    /// `HMSET`
    HMSet,
    /// `HMGET`
    HMGet,
    /// `HGETALL`
    HGetAll,
    /// `COMMAND`
    Command,
    /// `DEBUG`
    Debug,
    /// `FLUSHDB`
    FlushDb,
    /// `KEYS`
    Keys,
    /// `TYPE`
    Type,
    /// `OBJECT`
    Object,
    /// `MSET`
    MSet,
    /// `MGET`
    MGet,
}

/// One line of the command table.
#[derive(Clone, Copy, Debug)]
pub struct RedisCommand<'a> {
    pub name: &'a [u8],
    pub handler: Handler,
    /// The number of items a request must have, the command included: that
    /// many where it is positive, at least its magnitude where it is
    /// negative.
    pub arity: i32,
}

/// The number of commands in the table.
pub const COMMAND_COUNT: usize = 35;

/// The line of the command table at a place: the name, the handler and the
/// arity.
pub open spec fn table_entry(i: int) -> (Seq<u8>, Handler, int) {
    if i == 0 {
        (text("get"), Handler::Get, 2)
    } else if i == 1 {
        (text("set"), Handler::Assign, -3)
    } else if i == 2 {
        (text("del"), Handler::Del, -2)
    } else if i == 3 {
        (text("exists"), Handler::Exists, -2)
    } else if i == 4 {
        (text("expire"), Handler::Expire, 3)
    } else if i == 5 {
        (text("persist"), Handler::Persist, 2)
    } else if i == 6 {
        (text("ttl"), Handler::Ttl, 2)
    } else if i == 7 {
        (text("incr"), Handler::Incr, 2)
    } else if i == 8 {
        (text("decr"), Handler::Decr, 2)
    } else if i == 9 {
        (text("incrby"), Handler::IncrBy, 3)
    } else if i == 10 {
        (text("decrby"), Handler::DecrBy, 3)
    } else if i == 11 {
        (text("rpush"), Handler::RPush, -3)
    } else if i == 12 {
        (text("lpush"), Handler::LPush, -3)
    } else if i == 13 {
        (text("linsert"), Handler::LInsert, 5)
    } else if i == 14 {
        (text("rpop"), Handler::RPop, 2)
    } else if i == 15 {
        (text("lpop"), Handler::LPop, 2)
    } else if i == 16 {
        (text("llen"), Handler::LLen, 2)
    } else if i == 17 {
        (text("lindex"), Handler::LIndex, 3)
    } else if i == 18 {
        (text("lset"), Handler::LSet, 4)
    } else if i == 19 {
        (text("lrange"), Handler::LRange, 4)
    } else if i == 20 {
        (text("ltrim"), Handler::LTrim, 4)
    } else if i == 21 {
        (text("lrem"), Handler::LRem, 4)
    } else if i == 22 {
        (text("hset"), Handler::HSet, -4)
    } else if i == 23 {
        (text("hget"), Handler::HGet, 3)
    } else if i == 24 {
        (text("hmset"), Handler::HMSet, -4)
    } else if i == 25 {
        (text("hmget"), Handler::HMGet, -3)
    } else if i == 26 {
        (text("hgetall"), Handler::HGetAll, 2)
    } else if i == 27 {
        (text("command"), Handler::Command, -1)
    } else if i == 28 {
        (text("debug"), Handler::Debug, -2)
    } else if i == 29 {
        (text("flushdb"), Handler::FlushDb, -1)
    } else if i == 30 {
        (text("keys"), Handler::Keys, 2)
    } else if i == 31 {
        (text("type"), Handler::Type, 2)
    } else if i == 32 {
        (text("object"), Handler::Object, -2)
    } else if i == 33 {
        (text("mset"), Handler::MSet, -3)
    } else {
        (text("mget"), Handler::MGet, -2)
    }
}

/// The line of the command table at a place.
pub fn command_at(i: usize) -> (r: RedisCommand<'static>)
    requires
        i < COMMAND_COUNT,
    ensures
        (r.name@, r.handler, r.arity as int) == table_entry(i as int),
        r.arity != 0,
{
    if i == 0 {
        RedisCommand { name: "get".as_bytes(), handler: Handler::Get, arity: 2 }
    } else if i == 1 {
        RedisCommand { name: "set".as_bytes(), handler: Handler::Assign, arity: -3 }
    } else if i == 2 {
        RedisCommand { name: "del".as_bytes(), handler: Handler::Del, arity: -2 }
    } else if i == 3 {
        RedisCommand { name: "exists".as_bytes(), handler: Handler::Exists, arity: -2 }
    } else if i == 4 {
        RedisCommand { name: "expire".as_bytes(), handler: Handler::Expire, arity: 3 }
    } else if i == 5 {
        RedisCommand { name: "persist".as_bytes(), handler: Handler::Persist, arity: 2 }
    } else if i == 6 {
        RedisCommand { name: "ttl".as_bytes(), handler: Handler::Ttl, arity: 2 }
    } else if i == 7 {
        RedisCommand { name: "incr".as_bytes(), handler: Handler::Incr, arity: 2 }
    } else if i == 8 {
        RedisCommand { name: "decr".as_bytes(), handler: Handler::Decr, arity: 2 }
    } else if i == 9 {
        RedisCommand { name: "incrby".as_bytes(), handler: Handler::IncrBy, arity: 3 }
    } else if i == 10 {
        RedisCommand { name: "decrby".as_bytes(), handler: Handler::DecrBy, arity: 3 }
    } else if i == 11 {
        RedisCommand { name: "rpush".as_bytes(), handler: Handler::RPush, arity: -3 }
    } else if i == 12 {
        RedisCommand { name: "lpush".as_bytes(), handler: Handler::LPush, arity: -3 }
    } else if i == 13 {
        RedisCommand { name: "linsert".as_bytes(), handler: Handler::LInsert, arity: 5 }
    } else if i == 14 {
        RedisCommand { name: "rpop".as_bytes(), handler: Handler::RPop, arity: 2 }
    } else if i == 15 {
        RedisCommand { name: "lpop".as_bytes(), handler: Handler::LPop, arity: 2 }
    } else if i == 16 {
        RedisCommand { name: "llen".as_bytes(), handler: Handler::LLen, arity: 2 }
    } else if i == 17 {
        RedisCommand { name: "lindex".as_bytes(), handler: Handler::LIndex, arity: 3 }
    } else if i == 18 {
        RedisCommand { name: "lset".as_bytes(), handler: Handler::LSet, arity: 4 }
    } else if i == 19 {
        RedisCommand { name: "lrange".as_bytes(), handler: Handler::LRange, arity: 4 }
    } else if i == 20 {
        RedisCommand { name: "ltrim".as_bytes(), handler: Handler::LTrim, arity: 4 }
    } else if i == 21 {
        RedisCommand { name: "lrem".as_bytes(), handler: Handler::LRem, arity: 4 }
    } else if i == 22 {
        RedisCommand { name: "hset".as_bytes(), handler: Handler::HSet, arity: -4 }
    } else if i == 23 {
        RedisCommand { name: "hget".as_bytes(), handler: Handler::HGet, arity: 3 }
    } else if i == 24 {
        RedisCommand { name: "hmset".as_bytes(), handler: Handler::HMSet, arity: -4 }
    } else if i == 25 {
        RedisCommand { name: "hmget".as_bytes(), handler: Handler::HMGet, arity: -3 }
    } else if i == 26 {
        RedisCommand { name: "hgetall".as_bytes(), handler: Handler::HGetAll, arity: 2 }
    } else if i == 27 {
        RedisCommand { name: "command".as_bytes(), handler: Handler::Command, arity: -1 }
    } else if i == 28 {
        RedisCommand { name: "debug".as_bytes(), handler: Handler::Debug, arity: -2 }
    } else if i == 29 {
        RedisCommand { name: "flushdb".as_bytes(), handler: Handler::FlushDb, arity: -1 }
    } else if i == 30 {
        RedisCommand { name: "keys".as_bytes(), handler: Handler::Keys, arity: 2 }
    } else if i == 31 {
        RedisCommand { name: "type".as_bytes(), handler: Handler::Type, arity: 2 }
    } else if i == 32 {
        RedisCommand { name: "object".as_bytes(), handler: Handler::Object, arity: -2 }
    } else if i == 33 {
        RedisCommand { name: "mset".as_bytes(), handler: Handler::MSet, arity: -3 }
    } else {
        RedisCommand { name: "mget".as_bytes(), handler: Handler::MGet, arity: -2 }
    }
}

/// The first place from `i` on at which the table names the command,
/// letter case aside.
pub open spec fn first_match(name: Seq<u8>, i: int) -> Option<int>
    decreases COMMAND_COUNT - i,
{
    if i < 0 || i >= COMMAND_COUNT {
        None
    } else if eq_ignoring_case(name, table_entry(i).0) {
        Some(i)
    } else {
        first_match(name, i + 1)
    }
}

/// The place at which the table names the command, if it does.
pub open spec fn lookup_spec(name: Seq<u8>) -> Option<int> {
    first_match(name, 0)
}

pub fn lookup(name: ByteStr) -> (r: Option<RedisCommand<'static>>)
    ensures
        match r {
            Some(command) => lookup_spec(name@) matches Some(i) && 0 <= i < COMMAND_COUNT && (
                command.name@,
                command.handler,
                command.arity as int,
            ) == table_entry(i) && command.arity != 0,
            None => lookup_spec(name@) is None,
        },
{
    let mut i: usize = 0;
    while i < COMMAND_COUNT
        invariant
            i <= COMMAND_COUNT,
            lookup_spec(name@) == first_match(name@, i as int),
        decreases COMMAND_COUNT - i,
    {
        let command = command_at(i);
        if name.eq_ignore_ascii_case(command.name) {
            return Some(command);
        }
        i += 1;
    }
    None
}

/// Whether a request of `given` items has the number of items that a
/// command of the given arity takes.
pub open spec fn valid_arity(arity: int, given: int) -> bool {
    arity == given || (arity < 0 && given >= -arity)
}

pub fn is_valid_arity(arity: i64, given: i64) -> (r: bool)
    requires
        arity != 0,
    ensures
        r == valid_arity(arity as int, given as int),
{
    arity == given || (arity < 0 && (given as i128) + (arity as i128) >= 0)
}

/// What the handler of a command does with a request.
pub open spec fn effect_of(h: Handler, s: Seq<Slot>, a: Seq<Seq<u8>>, now: u128) -> Effect {
    match h {
        Handler::Get => string_type::get_effect(s, a, now),
        Handler::Assign => string_type::set_effect(s, a, now),
        Handler::Del => keyspace::del_effect(s, a),
        Handler::Exists => keyspace::exists_effect(s, a, now),
        Handler::Expire => keyspace::expire_effect(s, a, now),
        Handler::Persist => keyspace::persist_effect(s, a, now),
        Handler::Ttl => keyspace::ttl_effect(s, a, now),
        Handler::Incr => string_type::incr_effect(s, a[1], now, 1),
        Handler::Decr => string_type::incr_effect(s, a[1], now, -1i64),
        Handler::IncrBy => string_type::step_effect(s, a, now, 1),
        Handler::DecrBy => string_type::step_effect(s, a, now, -1),
        Handler::RPush => list_type::rpush_effect(s, a, now),
        Handler::LPush => list_type::lpush_effect(s, a, now),
        Handler::LInsert => list_type::linsert_effect(s, a, now),
        Handler::RPop => list_type::rpop_effect(s, a, now),
        Handler::LPop => list_type::lpop_effect(s, a, now),
        Handler::LLen => list_type::llen_effect(s, a, now),
        Handler::LIndex => list_type::lindex_effect(s, a, now),
        Handler::LSet => list_type::lset_effect(s, a, now),
        Handler::LRange => list_type::lrange_effect(s, a, now),
        Handler::LTrim => list_type::ltrim_effect(s, a, now),
        Handler::LRem => list_type::lrem_effect(s, a, now),
        Handler::HSet => hash_type::hset_effect(s, a, now, true),
        Handler::HGet => hash_type::hget_effect(s, a, now),
        Handler::HMSet => hash_type::hset_effect(s, a, now, false),
        Handler::HMGet => hash_type::hmget_effect(s, a, now),
        Handler::HGetAll => hash_type::hgetall_effect(s, a, now),
        Handler::Command => server::command_effect(s, a),
        Handler::Debug => server::debug_effect(s, a),
        Handler::FlushDb => server::flushdb_effect(),
        Handler::Keys => keyspace::keys_effect(s, a, now),
        Handler::Type => keyspace::type_effect(s, a, now),
        Handler::Object => keyspace::object_effect(s, a, now),
        Handler::MSet => string_type::mset_effect(s, a),
        Handler::MGet => string_type::mget_effect(s, a, now),
    }
}

/// Whether the handler of a command can do its work on a request. It
/// cannot where the request lacks an argument that it reads, where a list
/// is longer than its indices count, and where the request asks it to fail.
pub open spec fn serves(h: Handler, s: Seq<Slot>, a: Seq<Seq<u8>>, now: u128) -> bool {
    match h {
        Handler::Get => a.len() >= 2,
        Handler::Assign => a.len() >= 3,
        Handler::Del => true,
        Handler::Exists => true,
        Handler::Expire => a.len() >= 3,
        Handler::Persist => a.len() >= 2,
        Handler::Ttl => a.len() >= 2,
        Handler::Incr => a.len() >= 2,
        Handler::Decr => a.len() >= 2,
        Handler::IncrBy => a.len() >= 3,
        Handler::DecrBy => a.len() >= 3,
        Handler::RPush => a.len() >= 2,
        Handler::LPush => a.len() >= 2,
        Handler::LInsert => a.len() >= 5,
        Handler::RPop => a.len() >= 2,
        Handler::LPop => a.len() >= 2,
        Handler::LLen => a.len() >= 2,
        Handler::LIndex => a.len() >= 3 && !list_type::too_long(s, a[1], now),
        Handler::LSet => a.len() >= 4 && !list_type::too_long(s, a[1], now),
        Handler::LRange => a.len() >= 4 && !list_type::too_long(s, a[1], now),
        Handler::LTrim => a.len() >= 4 && !list_type::too_long(s, a[1], now),
        Handler::LRem => a.len() >= 4,
        Handler::HSet => a.len() >= 2,
        Handler::HGet => a.len() >= 3,
        Handler::HMSet => a.len() >= 2,
        Handler::HMGet => a.len() >= 2,
        Handler::HGetAll => a.len() >= 2,
        Handler::Command => true,
        Handler::Debug => a.len() >= 2 && !server::asks_for_error(a),
        Handler::FlushDb => true,
        Handler::Keys => a.len() >= 2,
        Handler::Type => a.len() >= 2,
        Handler::Object => true,
        Handler::MSet => true,
        Handler::MGet => true,
    }
}

/// The request asks the handler to panic.
pub open spec fn asks_to_panic(h: Handler, a: Seq<Seq<u8>>) -> bool {
    h == Handler::Debug && a.len() >= 2 && lower_bytes(a[1]) == text("panic")
}

/// Whether a request is the one that the handler of `DEBUG` answers with a
/// panic.
pub fn is_deliberate_panic(handler: Handler, request: &Request) -> (r: bool)
    ensures
        r == asks_to_panic(handler, request@),
{
    match handler {
        Handler::Debug => match request.maybe_arg(0) {
            Some(word) => word.to_lowercase().eq_bytes("panic"),
            None => false,
        },
        _ => false,
    }
}

/// Hands a request to a handler.
pub fn call_handler(
    handler: Handler,
    db: &mut Database,
    request: &Request,
    response: &mut Response,
    now: u128,
) -> (r: Result<()>)
    requires
        old(db).wf(),
        !asks_to_panic(handler, request@),
    ensures
        final(db).wf(),
        handled(
            r,
            serves(handler, old(db)@, request@, now),
            old(db)@,
            old(response)@,
            final(db)@,
            final(response)@,
            effect_of(handler, old(db)@, request@, now),
        ),
{
    match handler {
        Handler::Get => string_type::get_command(db, request, response, now),
        Handler::Assign => string_type::set_command(db, request, response, now),
        Handler::Del => keyspace::del_command(db, request, response, now),
        Handler::Exists => keyspace::exists_command(db, request, response, now),
        Handler::Expire => keyspace::expire_command(db, request, response, now),
        Handler::Persist => keyspace::persist_command(db, request, response, now),
        Handler::Ttl => keyspace::ttl_command(db, request, response, now),
        Handler::Incr => string_type::incr_command(db, request, response, now),
        Handler::Decr => string_type::decr_command(db, request, response, now),
        Handler::IncrBy => string_type::incrby_command(db, request, response, now),
        Handler::DecrBy => string_type::decrby_command(db, request, response, now),
        Handler::RPush => list_type::rpush_command(db, request, response, now),
        Handler::LPush => list_type::lpush_command(db, request, response, now),
        Handler::LInsert => list_type::linsert_command(db, request, response, now),
        Handler::RPop => list_type::rpop_command(db, request, response, now),
        Handler::LPop => list_type::lpop_command(db, request, response, now),
        Handler::LLen => list_type::llen_command(db, request, response, now),
        Handler::LIndex => list_type::lindex_command(db, request, response, now),
        Handler::LSet => list_type::lset_command(db, request, response, now),
        Handler::LRange => list_type::lrange_command(db, request, response, now),
        Handler::LTrim => list_type::ltrim_command(db, request, response, now),
        Handler::LRem => list_type::lrem_command(db, request, response, now),
        Handler::HSet => hash_type::hset_command(db, request, response, now),
        Handler::HGet => hash_type::hget_command(db, request, response, now),
        Handler::HMSet => hash_type::hmset_command(db, request, response, now),
        Handler::HMGet => hash_type::hmget_command(db, request, response, now),
        Handler::HGetAll => hash_type::hgetall_command(db, request, response, now),
        Handler::Command => server::command_command(db, request, response, now),
        Handler::Debug => server::debug_command(db, request, response, now),
        Handler::FlushDb => server::flushdb_command(db, request, response, now),
        Handler::Keys => keyspace::keys_command(db, request, response, now),
        Handler::Type => keyspace::type_command(db, request, response, now),
        Handler::Object => keyspace::object_command(db, request, response, now),
        Handler::MSet => string_type::mset_command(db, request, response, now),
        Handler::MGet => string_type::mget_command(db, request, response, now),
    }
}

/// What a command does with a request at `now`: the reply that the number
/// of arguments is wrong where it is, and the work of the handler where it
/// is not.
pub open spec fn execute_effect(
    h: Handler,
    arity: int,
    s: Seq<Slot>,
    a: Seq<Seq<u8>>,
    now: u128,
) -> Effect {
    if !valid_arity(arity, a.len() as int) {
        reply_only(s, wrong_arity_reply(a[0]))
    } else {
        effect_of(h, s, a, now)
    }
}

impl RedisCommand<'_> {
    /// Runs the command on a request at `now`.
    pub fn execute_at(
        &self,
        db: &mut Database,
        request: &Request,
        response: &mut Response,
        now: u128,
    ) -> (r: Result<()>)
        requires
            old(db).wf(),
            self.arity != 0,
            !asks_to_panic(self.handler, request@),
        ensures
            final(db).wf(),
            handled(
                r,
                !valid_arity(self.arity as int, request@.len() as int) || serves(
                    self.handler,
                    old(db)@,
                    request@,
                    now,
                ),
                old(db)@,
                old(response)@,
                final(db)@,
                final(response)@,
                execute_effect(self.handler, self.arity as int, old(db)@, request@, now),
            ),
    {
        if !is_valid_arity(self.arity as i64, request.arity()) {
            response.add_reply_wrong_number_of_arguments(request.command());
            return Ok(());
        }
        call_handler(self.handler, db, request, response, now)
    }

    /// Runs the command on a request, at the time that the clock shows.
    pub fn execute(&self, db: &mut Database, request: &Request, response: &mut Response) -> (r:
        Result<()>)
        requires
            old(db).wf(),
            self.arity != 0,
            !asks_to_panic(self.handler, request@),
        ensures
            final(db).wf(),
            exists|now: u128|
                handled(
                    r,
                    !valid_arity(self.arity as int, request@.len() as int) || serves(
                        self.handler,
                        old(db)@,
                        request@,
                        now,
                    ),
                    old(db)@,
                    old(response)@,
                    final(db)@,
                    final(response)@,
                    #[trigger] execute_effect(
                        self.handler,
                        self.arity as int,
                        old(db)@,
                        request@,
                        now,
                    ),
                ),
    {
        let now = db.now();
        self.execute_at(db, request, response, now)
    }
}

/// The whole answer to a request at `now`: the reply to an unknown
/// command, the reply to a wrong number of arguments, the work of the
/// handler, or the reply that the server failed where the handler did.
pub open spec fn answer(s: Seq<Slot>, a: Seq<Seq<u8>>, now: u128) -> Effect {
    match lookup_spec(a[0]) {
        None => reply_only(s, unknown_command_reply(a)),
        Some(i) => {
            let (name, h, arity) = table_entry(i);
            if !valid_arity(arity, a.len() as int) || serves(h, s, a, now) {
                execute_effect(h, arity, s, a, now)
            } else {
                reply_only(s, server_error_reply())
            }
        },
    }
}

/// The request is one that the command it names answers with a panic.
pub open spec fn panics(a: Seq<Seq<u8>>) -> bool {
    lookup_spec(a[0]) matches Some(i) && asks_to_panic(table_entry(i).1, a) && valid_arity(
        table_entry(i).2,
        a.len() as int,
    )
}

/// Whether a request is one that the command it names answers with a panic.
pub fn requests_panic(request: &Request) -> (r: bool)
    ensures
        r == panics(request@),
{
    match lookup(request.command()) {
        Some(command) => is_deliberate_panic(command.handler, request) && is_valid_arity(
            command.arity as i64,
            request.arity(),
        ),
        None => false,
    }
}

/// Answers a request at `now`.
pub fn respond_at(db: &mut Database, request: &Request, now: u128) -> (r: Response)
    requires
        old(db).wf(),
        !panics(request@),
    ensures
        final(db).wf(),
        final(db)@ == answer(old(db)@, request@, now).db,
        r@ == answer(old(db)@, request@, now).reply,
{
    let mut response = Response::new();
    match lookup(request.command()) {
        Some(command) => {
            if !is_valid_arity(command.arity as i64, request.arity()) {
                response.add_reply_wrong_number_of_arguments(request.command());
            } else {
                match call_handler(command.handler, db, request, &mut response, now) {
                    Ok(_) => {},
                    Err(_) => {
                        response.add_error("ERR server error");
                    },
                }
            }
        },
        None => {
            let mut message: Vec<u8> = Vec::new();
            extend_bytes(&mut message, "ERR unknown command `".as_bytes());
            extend_shown(&mut message, request.command().as_slice());
            extend_bytes(&mut message, "`, with args beginning with: ".as_bytes());
            let shown = request.argv_to_string();
            extend_bytes(&mut message, shown.as_str().as_bytes());
            response.add_line(RespSym::Error, message.as_slice());
        },
    }
    assert(response@ =~= answer(old(db)@, request@, now).reply);
    response
}

/// Answers a request, at the time that the clock shows.
pub fn respond(db: &mut Database, request: &Request) -> (r: Response)
    requires
        old(db).wf(),
        !panics(request@),
    ensures
        final(db).wf(),
        exists|now: u128|
            final(db)@ == (#[trigger] answer(old(db)@, request@, now)).db && r@ == answer(
                old(db)@,
                request@,
                now,
            ).reply,
{
    let now = db.now();
    respond_at(db, request, now)
}

/// A request of a number of items outside what its command takes gets the
/// reply that says so, and changes nothing; one of a number inside gets
/// what the handler does.
pub proof fn lemma_arity_window(s: Seq<Slot>, a: Seq<Seq<u8>>, now: u128, i: int)
    requires
        lookup_spec(a[0]) == Some(i),
    ensures
        !valid_arity(table_entry(i).2, a.len() as int) ==> answer(s, a, now) == reply_only(
            s,
            wrong_arity_reply(a[0]),
        ),
        valid_arity(table_entry(i).2, a.len() as int) && serves(table_entry(i).1, s, a, now)
            ==> answer(s, a, now) == effect_of(table_entry(i).1, s, a, now),
        valid_arity(table_entry(i).2, a.len() as int) && !serves(table_entry(i).1, s, a, now)
            ==> answer(s, a, now) == reply_only(s, server_error_reply()),
{
}

/// A request of a number of items that its command takes has every
/// argument that the handler reads: the handler fails on it only for a
/// list too long for its indices, and for `DEBUG ERROR`.
pub proof fn lemma_arity_suffices(s: Seq<Slot>, a: Seq<Seq<u8>>, now: u128, i: int)
    requires
        0 <= i < COMMAND_COUNT,
        valid_arity(table_entry(i).2, a.len() as int),
    ensures
        serves(table_entry(i).1, s, a, now) || (a.len() >= 2 && (list_type::too_long(
            s,
            a[1],
            now,
        ) || server::asks_for_error(a))),
{
}

/// The table names a command at the place where `lookup_spec` finds it.
pub proof fn lemma_lookup_finds(name: Seq<u8>, from: int)
    requires
        0 <= from,
    ensures
        match first_match(name, from) {
            Some(i) => from <= i < COMMAND_COUNT && eq_ignoring_case(name, table_entry(i).0),
            None => forall|i: int|
                from <= i < COMMAND_COUNT ==> !eq_ignoring_case(name, #[trigger] table_entry(i).0),
        },
    decreases COMMAND_COUNT - from,
{
    if from < COMMAND_COUNT && !eq_ignoring_case(name, table_entry(from).0) {
        lemma_lookup_finds(name, from + 1);
    }
}

} // verus!
