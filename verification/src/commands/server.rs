//! The commands on the server itself.

use crate::byte_string::{lemma_views_edit, lower_bytes, views};
use crate::commands::{
    command_at, handled, lookup, lookup_spec, ok_reply, reply_only, table_entry, Effect,
    RedisCommand, COMMAND_COUNT,
};
use crate::db::{Database, Slot};
use crate::errors::{Error, Result};
use crate::request::Request;
use crate::response::{
    array_frame, bulk_frame, integer_frame, null_array_frame, Response,
};
use crate::response_ext::{help_reply, subcommand_syntax_reply, text, ResponseExt};
use vstd::prelude::*;

verus! {

/// The help text of `COMMAND`.
pub open spec fn command_help_text() -> Seq<&'static str> {
    seq![
        "(no subcommand) -- Return details about all Redis commands.",
        "COUNT -- Return the total number of commands in this Redis server.",
        "GETKEYS -- NOT SUPPORTED.",
        "INFO [command-name ...] -- Return details about multiple Redis commands.",
    ]
}

/// The help text of `COMMAND`.
pub fn command_help() -> (r: [&'static str; 4])
    ensures
        r@ == command_help_text(),
{
    let r = [
        "(no subcommand) -- Return details about all Redis commands.",
        "COUNT -- Return the total number of commands in this Redis server.",
        "GETKEYS -- NOT SUPPORTED.",
        "INFO [command-name ...] -- Return details about multiple Redis commands.",
    ];
    assert(r@ =~= command_help_text());
    r
}

/// What `COMMAND` tells of one command: its name and its arity.
pub open spec fn command_frames(i: int) -> Seq<u8> {
    array_frame(2) + bulk_frame(table_entry(i).0) + integer_frame(table_entry(i).2)
}

/// What `COMMAND` tells of the first `n` commands of the table.
pub open spec fn table_frames(n: int) -> Seq<u8>
    decreases n,
{
    if n <= 0 {
        Seq::<u8>::empty()
    } else {
        table_frames(n - 1) + command_frames(n - 1)
    }
}

/// What `COMMAND INFO` tells of a name: the command, or the null array for
/// a name that the table does not hold.
pub open spec fn info_frame(name: Seq<u8>) -> Seq<u8> {
    match lookup_spec(name) {
        Some(i) => command_frames(i),
        None => null_array_frame(),
    }
}

/// What `COMMAND INFO` tells of the first `n` of the given names.
pub open spec fn info_frames(names: Seq<Seq<u8>>, n: int) -> Seq<u8>
    decreases n,
{
    if n <= 0 {
        Seq::<u8>::empty()
    } else {
        info_frames(names, n - 1) + info_frame(names[n - 1])
    }
}

/// `COMMAND`, `COMMAND HELP`, `COMMAND COUNT` and `COMMAND INFO name ...`.
pub open spec fn command_effect(s: Seq<Slot>, a: Seq<Seq<u8>>) -> Effect {
    if a.len() < 2 {
        reply_only(s, array_frame(COMMAND_COUNT as int) + table_frames(COMMAND_COUNT as int))
    } else if lower_bytes(a[1]) == text("help") {
        reply_only(s, help_reply(a[0], command_help_text()))
    } else if lower_bytes(a[1]) == text("count") {
        reply_only(s, integer_frame(COMMAND_COUNT as int))
    } else if lower_bytes(a[1]) == text("info") {
        reply_only(s, array_frame(a.len() - 2) + info_frames(a.skip(2), a.len() - 2))
    } else {
        reply_only(s, subcommand_syntax_reply(a[0], a[1]))
    }
}

/// Adds what `COMMAND` tells of one command.
fn command_reply(reply: &mut Response, cmd: &RedisCommand)
    ensures
        final(reply)@ == old(reply)@ + (array_frame(2) + bulk_frame(cmd.name@) + integer_frame(
            cmd.arity as int,
        )),
{
    reply.add_array_len(2);
    reply.add_bulk_string(cmd.name);
    reply.add_integer(cmd.arity as i64);
    assert(reply@ =~= old(reply)@ + (array_frame(2) + bulk_frame(cmd.name@) + integer_frame(
        cmd.arity as int,
    )));
}

/// Handles `COMMAND`.
pub fn command_command(db: &mut Database, request: &Request, response: &mut Response, now: u128) -> (r:
    Result<()>)
    requires
        old(db).wf(),
    ensures
        final(db).wf(),
        handled(
            r,
            true,
            old(db)@,
            old(response)@,
            final(db)@,
            final(response)@,
            command_effect(old(db)@, request@),
        ),
{
    match request.maybe_arg(0) {
        Some(sub_command) => {
            let word = sub_command.to_lowercase();
            if word.eq_bytes("help") {
                let help = command_help();
                response.add_reply_help(request.command(), help.as_slice());
            } else if word.eq_bytes("count") {
                response.add_natural(COMMAND_COUNT as u128);
            } else if word.eq_bytes("info") {
                let requested = request.arguments_from(1);
                let ghost names = views(requested@);
                response.add_array_of(requested.len() as u128);
                let ghost begun = response@;
                let mut n: usize = 0;
                while n < requested.len()
                    invariant
                        n <= requested.len(),
                        names == views(requested@),
                        response@ == begun + info_frames(names, n as int),
                    decreases requested.len() - n,
                {
                    proof {
                        lemma_views_edit(requested@, requested@[0], n as int);
                    }
                    match lookup(requested[n].as_byte_str()) {
                        Some(cmd) => command_reply(response, &cmd),
                        None => response.add_null_array(),
                    }
                    n += 1;
                    assert(response@ =~= begun + info_frames(names, n as int));
                }
                assert(response@ =~= old(response)@ + (array_frame(request@.len() - 2)
                    + info_frames(request@.skip(2), request@.len() - 2)));
            } else {
                response.add_reply_subcommand_syntax_error(
                    request.command(),
                    sub_command.as_byte_str(),
                );
            }
        },
        None => {
            response.add_array_of(COMMAND_COUNT as u128);
            let ghost begun = response@;
            let mut n: usize = 0;
            while n < COMMAND_COUNT
                invariant
                    n <= COMMAND_COUNT,
                    response@ == begun + table_frames(n as int),
                decreases COMMAND_COUNT - n,
            {
                let cmd = command_at(n);
                command_reply(response, &cmd);
                n += 1;
                assert(response@ =~= begun + table_frames(n as int));
            }
            assert(response@ =~= old(response)@ + (array_frame(COMMAND_COUNT as int)
                + table_frames(COMMAND_COUNT as int)));
        },
    }
    Ok(())
}

/// The help text of `DEBUG`.
pub open spec fn debug_help_text() -> Seq<&'static str> {
    seq!["PANIC -- Crash the server simulating a panic.", "ERROR -- Simulate an error."]
}

/// The help text of `DEBUG`.
pub fn debug_help() -> (r: [&'static str; 2])
    ensures
        r@ == debug_help_text(),
{
    let r = ["PANIC -- Crash the server simulating a panic.", "ERROR -- Simulate an error."];
    assert(r@ =~= debug_help_text());
    r
}

/// The request is `DEBUG ERROR`, which the handler answers by failing.
pub open spec fn asks_for_error(a: Seq<Seq<u8>>) -> bool {
    a.len() >= 2 && lower_bytes(a[1]) != text("help") && lower_bytes(a[1]) == text("error")
}

/// `DEBUG HELP`; any other subcommand but `PANIC` and `ERROR` is refused.
pub open spec fn debug_effect(s: Seq<Slot>, a: Seq<Seq<u8>>) -> Effect {
    if lower_bytes(a[1]) == text("help") {
        reply_only(s, help_reply(a[0], debug_help_text()))
    } else {
        reply_only(s, subcommand_syntax_reply(a[0], lower_bytes(a[1])))
    }
}

/// `DEBUG HELP` and `DEBUG ERROR`. `DEBUG PANIC` is for the caller to
/// answer: this handler does not take it.
pub fn debug_command(db: &mut Database, request: &Request, response: &mut Response, now: u128) -> (r:
    Result<()>)
    requires
        old(db).wf(),
        !(request@.len() >= 2 && lower_bytes(request@[1]) == text("panic")),
    ensures
        final(db).wf(),
        handled(
            r,
            request@.len() >= 2 && !asks_for_error(request@),
            old(db)@,
            old(response)@,
            final(db)@,
            final(response)@,
            debug_effect(old(db)@, request@),
        ),
        request@.len() >= 2 && r is Err ==> (r matches Err(Error::Message(m)) && m@
            == "A deliberate error from DEBUG ERROR"@),
{
    let sub_command = request.arg(0)?.to_lowercase();
    if sub_command.eq_bytes("help") {
        let help = debug_help();
        response.add_reply_help(request.command(), help.as_slice());
    } else if sub_command.eq_bytes("error") {
        return Err(Error::message("A deliberate error from DEBUG ERROR"));
    } else {
        response.add_reply_subcommand_syntax_error(request.command(), sub_command.as_byte_str());
    }
    Ok(())
}

/// `FLUSHDB`.
pub open spec fn flushdb_effect() -> Effect {
    Effect { db: Seq::<Slot>::empty(), reply: ok_reply() }
}

/// Handles `FLUSHDB`.
pub fn flushdb_command(db: &mut Database, request: &Request, response: &mut Response, now: u128) -> (r:
    Result<()>)
    ensures
        final(db).wf(),
        handled(
            r,
            true,
            old(db)@,
            old(response)@,
            final(db)@,
            final(response)@,
            flushdb_effect(),
        ),
{
    db.clear();
    response.add_simple_string("OK");
    Ok(())
}

} // verus!
