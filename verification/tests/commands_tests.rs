use redis_clone::byte_string::ByteString;
use redis_clone::commands::list_type::{clamp, to_index};
use redis_clone::commands::{
    command_at, is_deliberate_panic, is_valid_arity, lookup, requests_panic, respond, respond_at,
    Handler, COMMAND_COUNT,
};
use redis_clone::db::Database;
use redis_clone::errors::{Error, Result};
use redis_clone::request::Request;
use redis_clone::response::Response;

const SECOND: u128 = 1_000_000_000;

fn request(items: &[&str]) -> Request {
    Request::try_from(items.iter().map(|s| ByteString::from(*s)).collect()).unwrap()
}

/// The reply to a request at a given time, as text.
fn at(db: &mut Database, now: u128, items: &[&str]) -> String {
    let request = request(items);
    assert!(!requests_panic(&request));
    String::from_utf8(respond_at(db, &request, now).as_bytes().to_vec()).unwrap()
}

/// The reply to a request at time zero, as text.
fn run(db: &mut Database, items: &[&str]) -> String {
    at(db, 0, items)
}

#[test]
fn test_lookup() {
    assert!(lookup("get".into()).is_some());
    assert!(lookup("GET".into()).is_some());
    assert!(lookup("xxx".into()).is_none());
}

#[test]
fn test_is_valid_arity() {
    assert!(!is_valid_arity(2, 0));
    assert!(!is_valid_arity(2, 1));
    assert!(is_valid_arity(2, 2));
    assert!(!is_valid_arity(2, 3));

    assert!(!is_valid_arity(-2, 0));
    assert!(!is_valid_arity(-2, 1));
    assert!(is_valid_arity(-2, 2));
    assert!(is_valid_arity(-2, 3));
}

#[test]
fn test_to_index() -> Result<()> {
    // types
    assert_eq!(to_index(0_isize, 2_usize)?, 0_isize);

    // positive indexes are unaltered
    assert_eq!(to_index(0, 2)?, 0);
    assert_eq!(to_index(1, 2)?, 1);
    assert_eq!(to_index(2, 2)?, 2);
    assert_eq!(to_index(3, 2)?, 3);

    // negative indexes are counted from the end
    assert_eq!(to_index(-1, 2)?, 1);
    assert_eq!(to_index(-2, 2)?, 0);
    assert_eq!(to_index(-3, 2)?, -1);
    assert_eq!(to_index(-4, 2)?, -2);

    Ok(())
}

#[test]
fn test_clamp() -> Result<()> {
    assert_eq!(clamp(0_isize, 1_isize, 2_usize)?, (0_usize, 1_usize));

    // start indexes are clamped to 0
    assert_eq!(clamp(-1, 2, 3)?, (0, 2));
    assert_eq!(clamp(0, 2, 3)?, (0, 2));
    assert_eq!(clamp(1, 2, 3)?, (1, 2));

    // end indexes are clamped to the end
    assert_eq!(clamp(0, 1, 3)?, (0, 1));
    assert_eq!(clamp(0, 2, 3)?, (0, 2));
    assert_eq!(clamp(0, 3, 3)?, (0, 2));

    Ok(())
}

#[test]
fn test_index_casts_that_fail() {
    assert!(matches!(to_index(-1, usize::MAX), Err(Error::CastingInt(_))));
    assert_eq!(to_index(isize::MAX, usize::MAX), Ok(isize::MAX));
    assert!(matches!(clamp(0, -1, 3), Err(Error::CastingInt(_))));
    assert!(is_valid_arity(i64::MIN, i64::MAX) == false);
    assert!(is_valid_arity(-1, i64::MAX));
    assert!(!is_valid_arity(-1, i64::MIN));
    assert!(is_valid_arity(i64::MIN, i64::MIN));
}

#[test]
fn test_command_table() {
    assert_eq!(COMMAND_COUNT, 35);
    let first = command_at(0);
    assert_eq!(first.name, b"get");
    assert_eq!(first.handler, Handler::Get);
    assert_eq!(first.arity, 2);
    let last = command_at(COMMAND_COUNT - 1);
    assert_eq!(last.name, b"mget");
    assert_eq!(last.arity, -2);
    for i in 0..COMMAND_COUNT {
        let command = command_at(i);
        assert!(command.arity != 0);
        let found = lookup(command.name.into()).unwrap();
        assert_eq!(found.name, command.name);
        assert_eq!(found.handler, command.handler);
        assert_eq!(found.arity, command.arity);
        let upper = ByteString::from(command.name).to_uppercase();
        assert_eq!(lookup(upper.as_byte_str()).unwrap().handler, command.handler);
    }
    assert_eq!(lookup("linsert".into()).unwrap().arity, 5);
    assert_eq!(lookup("HsEt".into()).unwrap().arity, -4);
    assert!(lookup("".into()).is_none());
    assert!(lookup("gett".into()).is_none());
}

#[test]
fn test_set_then_get() {
    let mut db = Database::new();
    assert_eq!(run(&mut db, &["SET", "x", "1"]), "+OK\r\n");
    assert_eq!(run(&mut db, &["GET", "x"]), "$1\r\n1\r\n");
    assert_eq!(run(&mut db, &["set", "s", "hello world"]), "+OK\r\n");
    assert_eq!(run(&mut db, &["get", "s"]), "$11\r\nhello world\r\n");
    assert_eq!(run(&mut db, &["get", "none"]), "$-1\r\n");
    assert_eq!(run(&mut db, &["type", "x"]), "+string\r\n");
    assert_eq!(run(&mut db, &["object", "encoding", "x"]), "$3\r\nint\r\n");
    assert_eq!(run(&mut db, &["object", "encoding", "s"]), "$7\r\nbytestr\r\n");
}

#[test]
fn test_incr_three_times() {
    let mut db = Database::new();
    assert_eq!(run(&mut db, &["INCR", "n"]), ":1\r\n");
    assert_eq!(run(&mut db, &["INCR", "n"]), ":2\r\n");
    assert_eq!(run(&mut db, &["INCR", "n"]), ":3\r\n");
    assert_eq!(run(&mut db, &["DECR", "n"]), ":2\r\n");
    assert_eq!(run(&mut db, &["INCRBY", "n", "40"]), ":42\r\n");
    assert_eq!(run(&mut db, &["DECRBY", "n", "50"]), ":-8\r\n");
    assert_eq!(run(&mut db, &["DECR", "fresh"]), ":-1\r\n");
    assert_eq!(run(&mut db, &["GET", "n"]), "$2\r\n-8\r\n");
}

#[test]
fn test_incr_errors() {
    let mut db = Database::new();
    run(&mut db, &["SET", "s", "abc"]);
    assert_eq!(
        run(&mut db, &["INCR", "s"]),
        "-ERR value is not an integer or out of range\r\n"
    );
    run(&mut db, &["SET", "max", "9223372036854775807"]);
    assert_eq!(
        run(&mut db, &["INCR", "max"]),
        "-ERR increment or decrement would overflow\r\n"
    );
    assert_eq!(run(&mut db, &["GET", "max"]), "$19\r\n9223372036854775807\r\n");
    run(&mut db, &["SET", "min", "-9223372036854775808"]);
    assert_eq!(
        run(&mut db, &["DECR", "min"]),
        "-ERR increment or decrement would overflow\r\n"
    );
    assert_eq!(
        run(&mut db, &["INCRBY", "n", "x"]),
        "-ERR value is not an integer or out of range\r\n"
    );
    assert_eq!(
        run(&mut db, &["DECRBY", "n", "-9223372036854775808"]),
        "-ERR increment or decrement would overflow\r\n"
    );
    assert_eq!(run(&mut db, &["EXISTS", "n"]), ":0\r\n");
    run(&mut db, &["RPUSH", "l", "a"]);
    assert_eq!(
        run(&mut db, &["INCR", "l"]),
        "-WRONGTYPE Operation against a key holding the wrong kind of value\r\n"
    );
}

#[test]
fn test_rpush_then_lrange() {
    let mut db = Database::new();
    assert_eq!(run(&mut db, &["RPUSH", "L", "a"]), ":1\r\n");
    assert_eq!(run(&mut db, &["RPUSH", "L", "b"]), ":2\r\n");
    assert_eq!(
        run(&mut db, &["LRANGE", "L", "0", "-1"]),
        "*2\r\n$1\r\na\r\n$1\r\nb\r\n"
    );
    assert_eq!(
        run(&mut db, &["GET", "L"]),
        "-WRONGTYPE Operation against a key holding the wrong kind of value\r\n"
    );
    assert_eq!(run(&mut db, &["TYPE", "L"]), "+list\r\n");
    assert_eq!(run(&mut db, &["OBJECT", "ENCODING", "L"]), "$4\r\nlist\r\n");
}

#[test]
fn test_set_with_expiry() {
    let mut db = Database::new();
    assert_eq!(
        at(&mut db, 0, &["SET", "k", "v", "EX", "0"]),
        "-ERR invalid expire time in set\r\n"
    );
    assert_eq!(at(&mut db, 0, &["SET", "k", "v", "EX", "1"]), "+OK\r\n");
    assert_eq!(at(&mut db, 0, &["TTL", "k"]), ":1\r\n");
    assert_eq!(at(&mut db, 1, &["TTL", "k"]), ":0\r\n");
    assert_eq!(at(&mut db, SECOND - 1, &["GET", "k"]), "$1\r\nv\r\n");
    assert_eq!(at(&mut db, SECOND + SECOND / 5, &["GET", "k"]), "$-1\r\n");
    assert_eq!(at(&mut db, SECOND + SECOND / 5, &["EXISTS", "k"]), ":0\r\n");
    assert_eq!(at(&mut db, 0, &["TTL", "k"]), ":-2\r\n");
}

#[test]
fn test_set_options() {
    let mut db = Database::new();
    assert_eq!(run(&mut db, &["SET", "k", "1", "XX"]), "$-1\r\n");
    assert_eq!(run(&mut db, &["GET", "k"]), "$-1\r\n");
    assert_eq!(run(&mut db, &["SET", "k", "1", "nx"]), "+OK\r\n");
    assert_eq!(run(&mut db, &["SET", "k", "2", "NX"]), "$-1\r\n");
    assert_eq!(run(&mut db, &["GET", "k"]), "$1\r\n1\r\n");
    assert_eq!(run(&mut db, &["SET", "k", "3", "xx"]), "+OK\r\n");
    assert_eq!(run(&mut db, &["GET", "k"]), "$1\r\n3\r\n");
    assert_eq!(run(&mut db, &["SET", "k", "4", "NX", "XX"]), "-ERR syntax error\r\n");
    assert_eq!(run(&mut db, &["SET", "k", "4", "XX", "NX"]), "-ERR syntax error\r\n");
    assert_eq!(run(&mut db, &["SET", "k", "4", "bogus"]), "-ERR syntax error\r\n");
    assert_eq!(run(&mut db, &["SET", "k", "4", "EX"]), "-ERR syntax error\r\n");
    assert_eq!(
        run(&mut db, &["SET", "k", "4", "EX", "1", "PX", "1"]),
        "-ERR syntax error\r\n"
    );
    assert_eq!(
        run(&mut db, &["SET", "k", "4", "EX", "ten"]),
        "-ERR value is not an integer or out of range\r\n"
    );
    assert_eq!(
        run(&mut db, &["SET", "k", "4", "PX", "-5"]),
        "-ERR invalid expire time in set\r\n"
    );
    assert_eq!(
        run(&mut db, &["SET", "k", "4", "EX", "9223372036854775807"]),
        "-ERR invalid expire time in set\r\n"
    );
    assert_eq!(run(&mut db, &["GET", "k"]), "$1\r\n3\r\n");
}

#[test]
fn test_set_deadlines() {
    let mut db = Database::new();
    let key = ByteString::from("k");
    assert_eq!(at(&mut db, 7, &["SET", "k", "v", "PX", "1500"]), "+OK\r\n");
    assert_eq!(db.get_expire(&key), Some(7 + 1_500_000_000));
    assert_eq!(at(&mut db, 7, &["TTL", "k"]), ":1\r\n");
    // A failed SET changes nothing
    assert_eq!(at(&mut db, 8, &["SET", "k", "w", "NX", "EX", "100"]), "$-1\r\n");
    assert_eq!(db.get_expire(&key), Some(7 + 1_500_000_000));
    // A plain SET clears the deadline
    assert_eq!(at(&mut db, 9, &["SET", "k", "w"]), "+OK\r\n");
    assert_eq!(db.get_expire(&key), None);
    assert_eq!(at(&mut db, 9, &["TTL", "k"]), ":-1\r\n");
    assert_eq!(at(&mut db, 10, &["SET", "k", "w", "xx", "ex", "2"]), "+OK\r\n");
    assert_eq!(db.get_expire(&key), Some(10 + 2 * SECOND));
    assert_eq!(at(&mut db, u128::MAX, &["SET", "far", "w", "ex", "2"]), "+OK\r\n");
    assert_eq!(db.get_expire(&ByteString::from("far")), Some(u128::MAX));
}

#[test]
fn test_mset_and_mget() {
    let mut db = Database::new();
    assert_eq!(run(&mut db, &["MSET", "a", "1", "b", "two"]), "+OK\r\n");
    assert_eq!(
        run(&mut db, &["MSET", "a", "1", "b"]),
        "-ERR wrong number of arguments for MSET\r\n"
    );
    run(&mut db, &["RPUSH", "l", "x"]);
    assert_eq!(
        run(&mut db, &["MGET", "a", "nope", "b", "l"]),
        "*4\r\n$1\r\n1\r\n$-1\r\n$3\r\ntwo\r\n$-1\r\n"
    );
    assert_eq!(run(&mut db, &["MSET", "a", "9", "a", "10"]), "+OK\r\n");
    assert_eq!(run(&mut db, &["GET", "a"]), "$2\r\n10\r\n");
}

#[test]
fn test_del_and_exists() {
    let mut db = Database::new();
    run(&mut db, &["MSET", "a", "1", "b", "2", "c", "3"]);
    assert_eq!(run(&mut db, &["EXISTS", "a", "a", "zz", "b"]), ":3\r\n");
    assert_eq!(run(&mut db, &["DEL", "a", "a", "zz", "b"]), ":2\r\n");
    assert_eq!(run(&mut db, &["EXISTS", "a", "b", "c"]), ":1\r\n");
    assert_eq!(db.len(), 1);
}

#[test]
fn test_expire_persist_ttl() {
    let mut db = Database::new();
    let key = ByteString::from("k");
    assert_eq!(at(&mut db, 5, &["EXPIRE", "k", "10"]), ":0\r\n");
    assert_eq!(at(&mut db, 5, &["PERSIST", "k"]), ":0\r\n");
    run(&mut db, &["SET", "k", "v"]);
    assert_eq!(at(&mut db, 5, &["PERSIST", "k"]), ":0\r\n");
    assert_eq!(at(&mut db, 5, &["TTL", "k"]), ":-1\r\n");
    assert_eq!(
        at(&mut db, 5, &["EXPIRE", "k", "soon"]),
        "-ERR value is not an integer or out of range\r\n"
    );
    assert_eq!(at(&mut db, 5, &["EXPIRE", "k", "10"]), ":1\r\n");
    assert_eq!(db.get_expire(&key), Some(5 + 10 * SECOND));
    assert_eq!(at(&mut db, 5 + SECOND / 2, &["TTL", "k"]), ":9\r\n");
    assert_eq!(at(&mut db, 6, &["PERSIST", "k"]), ":1\r\n");
    assert_eq!(db.get_expire(&key), None);
    assert_eq!(at(&mut db, 6, &["EXPIRE", "k", "0"]), ":1\r\n");
    assert!(!db.holds(&key));
    run(&mut db, &["SET", "k", "v"]);
    assert_eq!(at(&mut db, 6, &["EXPIRE", "k", "-1"]), ":1\r\n");
    assert_eq!(at(&mut db, 6, &["EXISTS", "k"]), ":0\r\n");
}

#[test]
fn test_keys() {
    let mut db = Database::new();
    run(&mut db, &["MSET", "foo", "1", "food", "2", "bar", "3"]);
    assert_eq!(run(&mut db, &["KEYS", "foo"]), "*1\r\n$3\r\nfoo\r\n");
    assert_eq!(run(&mut db, &["KEYS", "f*"]), "*2\r\n$3\r\nfoo\r\n$4\r\nfood\r\n");
    assert_eq!(
        run(&mut db, &["KEYS", "*"]),
        "*3\r\n$3\r\nfoo\r\n$4\r\nfood\r\n$3\r\nbar\r\n"
    );
    assert_eq!(run(&mut db, &["KEYS", "?a[r-t]"]), "*1\r\n$3\r\nbar\r\n");
    assert_eq!(run(&mut db, &["KEYS", "nothing"]), "*0\r\n");
    at(&mut db, 0, &["EXPIRE", "foo", "1"]);
    assert_eq!(at(&mut db, 2 * SECOND, &["KEYS", "f*"]), "*1\r\n$4\r\nfood\r\n");
    assert_eq!(
        at(&mut db, 2 * SECOND, &["KEYS", "*"]),
        "*2\r\n$4\r\nfood\r\n$3\r\nbar\r\n"
    );
}

#[test]
fn test_type_and_object() {
    let mut db = Database::new();
    run(&mut db, &["HSET", "h", "f", "v"]);
    assert_eq!(run(&mut db, &["TYPE", "h"]), "+hash\r\n");
    assert_eq!(run(&mut db, &["TYPE", "none"]), "+none\r\n");
    assert_eq!(run(&mut db, &["OBJECT", "ENCODING", "h"]), "$4\r\nhash\r\n");
    assert_eq!(run(&mut db, &["OBJECT", "encoding", "none"]), "$-1\r\n");
    assert_eq!(
        run(&mut db, &["OBJECT", "encoding"]),
        "-ERR Unknown subcommand or wrong number of arguments for 'encoding'. Try OBJECT HELP.\r\n"
    );
    assert_eq!(
        run(&mut db, &["object", "Freq", "k"]),
        "-ERR Unknown subcommand or wrong number of arguments for 'Freq'. Try OBJECT HELP.\r\n"
    );
    assert_eq!(
        run(&mut db, &["object", "help"]),
        "*5\r\n+OBJECT <subcommand> arg arg ... arg. Subcommands are:\r\n\
         +ENCODING <key> -- Return the kind of internal representation used in order to store the value associated with a key.\r\n\
         +FREQ <key> -- NOT SUPPORTED\r\n\
         +IDLETIME <key> -- NOT SUPPORTED\r\n\
         +REFCOUNT <key> -- NOT SUPPORTED\r\n"
    );
}

#[test]
fn test_list_push_and_pop() {
    let mut db = Database::new();
    assert_eq!(run(&mut db, &["RPUSH", "l", "a", "b", "c"]), ":3\r\n");
    assert_eq!(run(&mut db, &["LPUSH", "l", "x", "y"]), ":5\r\n");
    assert_eq!(
        run(&mut db, &["LRANGE", "l", "0", "-1"]),
        "*5\r\n$1\r\ny\r\n$1\r\nx\r\n$1\r\na\r\n$1\r\nb\r\n$1\r\nc\r\n"
    );
    assert_eq!(run(&mut db, &["LPUSH", "m", "1", "2", "3"]), ":3\r\n");
    assert_eq!(
        run(&mut db, &["LRANGE", "m", "0", "-1"]),
        "*3\r\n$1\r\n3\r\n$1\r\n2\r\n$1\r\n1\r\n"
    );
    assert_eq!(run(&mut db, &["LLEN", "l"]), ":5\r\n");
    assert_eq!(run(&mut db, &["LLEN", "none"]), ":0\r\n");
    assert_eq!(run(&mut db, &["RPOP", "l"]), "$1\r\nc\r\n");
    assert_eq!(run(&mut db, &["LPOP", "l"]), "$1\r\ny\r\n");
    assert_eq!(run(&mut db, &["LLEN", "l"]), ":3\r\n");
    assert_eq!(run(&mut db, &["RPOP", "none"]), "$-1\r\n");
    assert_eq!(run(&mut db, &["LPOP", "none"]), "$-1\r\n");
    run(&mut db, &["RPUSH", "one", "z"]);
    assert_eq!(run(&mut db, &["LPOP", "one"]), "$1\r\nz\r\n");
    assert_eq!(run(&mut db, &["LPOP", "one"]), "$-1\r\n");
    assert_eq!(run(&mut db, &["RPOP", "one"]), "$-1\r\n");
    assert_eq!(run(&mut db, &["LRANGE", "one", "-1", "0"]), "*0\r\n");
    run(&mut db, &["SET", "s", "v"]);
    let wrong = "-WRONGTYPE Operation against a key holding the wrong kind of value\r\n";
    assert_eq!(run(&mut db, &["RPUSH", "s", "a"]), wrong);
    assert_eq!(run(&mut db, &["LPUSH", "s", "a"]), wrong);
    assert_eq!(run(&mut db, &["RPOP", "s"]), wrong);
    assert_eq!(run(&mut db, &["LPOP", "s"]), wrong);
    assert_eq!(run(&mut db, &["LLEN", "s"]), wrong);
    assert_eq!(run(&mut db, &["GET", "s"]), "$1\r\nv\r\n");
}

#[test]
fn test_linsert() {
    let mut db = Database::new();
    run(&mut db, &["RPUSH", "l", "a", "b", "a"]);
    assert_eq!(run(&mut db, &["LINSERT", "l", "BEFORE", "a", "x"]), ":4\r\n");
    assert_eq!(run(&mut db, &["LINSERT", "l", "after", "b", "y"]), ":5\r\n");
    assert_eq!(
        run(&mut db, &["LRANGE", "l", "0", "-1"]),
        "*5\r\n$1\r\nx\r\n$1\r\na\r\n$1\r\nb\r\n$1\r\ny\r\n$1\r\na\r\n"
    );
    assert_eq!(run(&mut db, &["LINSERT", "l", "before", "zz", "x"]), ":-1\r\n");
    assert_eq!(run(&mut db, &["LINSERT", "l", "beside", "zz", "x"]), ":-1\r\n");
    assert_eq!(
        run(&mut db, &["LINSERT", "l", "beside", "a", "x"]),
        "-ERR syntax error\r\n"
    );
    assert_eq!(run(&mut db, &["LINSERT", "none", "before", "a", "x"]), ":0\r\n");
    assert_eq!(run(&mut db, &["LLEN", "l"]), ":5\r\n");
}

#[test]
fn test_lindex_and_lset() {
    let mut db = Database::new();
    run(&mut db, &["RPUSH", "l", "a", "b", "c"]);
    assert_eq!(run(&mut db, &["LINDEX", "l", "0"]), "$1\r\na\r\n");
    assert_eq!(run(&mut db, &["LINDEX", "l", "2"]), "$1\r\nc\r\n");
    assert_eq!(run(&mut db, &["LINDEX", "l", "3"]), "$-1\r\n");
    assert_eq!(run(&mut db, &["LINDEX", "l", "-1"]), "$1\r\nc\r\n");
    assert_eq!(run(&mut db, &["LINDEX", "l", "-3"]), "$1\r\na\r\n");
    assert_eq!(run(&mut db, &["LINDEX", "l", "-4"]), "$-1\r\n");
    assert_eq!(run(&mut db, &["LINDEX", "none", "0"]), "$-1\r\n");
    assert_eq!(
        run(&mut db, &["LINDEX", "l", "x"]),
        "-ERR value is not an integer or out of range\r\n"
    );
    assert_eq!(run(&mut db, &["LSET", "l", "1", "B"]), "+OK\r\n");
    assert_eq!(run(&mut db, &["LSET", "l", "-1", "C"]), "+OK\r\n");
    assert_eq!(
        run(&mut db, &["LRANGE", "l", "0", "-1"]),
        "*3\r\n$1\r\na\r\n$1\r\nB\r\n$1\r\nC\r\n"
    );
    assert_eq!(run(&mut db, &["LSET", "l", "3", "x"]), "-ERR index out of range\r\n");
    assert_eq!(run(&mut db, &["LSET", "l", "-4", "x"]), "-ERR index out of range\r\n");
    assert_eq!(run(&mut db, &["LSET", "none", "0", "x"]), "-ERR no such key\r\n");
    assert_eq!(
        run(&mut db, &["LSET", "l", "x", "x"]),
        "-ERR value is not an integer or out of range\r\n"
    );
    run(&mut db, &["SET", "s", "v"]);
    let wrong = "-WRONGTYPE Operation against a key holding the wrong kind of value\r\n";
    assert_eq!(run(&mut db, &["LINDEX", "s", "0"]), wrong);
    assert_eq!(run(&mut db, &["LSET", "s", "0", "x"]), wrong);
}

#[test]
fn test_lrange_and_ltrim() {
    let mut db = Database::new();
    run(&mut db, &["RPUSH", "l", "a", "b", "c", "d", "e"]);
    assert_eq!(
        run(&mut db, &["LRANGE", "l", "1", "3"]),
        "*3\r\n$1\r\nb\r\n$1\r\nc\r\n$1\r\nd\r\n"
    );
    assert_eq!(run(&mut db, &["LRANGE", "l", "-2", "100"]), "*2\r\n$1\r\nd\r\n$1\r\ne\r\n");
    assert_eq!(run(&mut db, &["LRANGE", "l", "-100", "0"]), "*1\r\n$1\r\na\r\n");
    assert_eq!(run(&mut db, &["LRANGE", "l", "3", "1"]), "*0\r\n");
    assert_eq!(run(&mut db, &["LRANGE", "l", "5", "9"]), "*0\r\n");
    assert_eq!(run(&mut db, &["LRANGE", "l", "0", "-6"]), "*0\r\n");
    assert_eq!(run(&mut db, &["LRANGE", "none", "0", "-1"]), "*0\r\n");
    assert_eq!(
        run(&mut db, &["LRANGE", "l", "a", "1"]),
        "-ERR value is not an integer or out of range\r\n"
    );
    assert_eq!(
        run(&mut db, &["LRANGE", "l", "0", "b"]),
        "-ERR value is not an integer or out of range\r\n"
    );
    assert_eq!(run(&mut db, &["LTRIM", "l", "1", "-2"]), "+OK\r\n");
    assert_eq!(
        run(&mut db, &["LRANGE", "l", "0", "-1"]),
        "*3\r\n$1\r\nb\r\n$1\r\nc\r\n$1\r\nd\r\n"
    );
    assert_eq!(run(&mut db, &["LTRIM", "l", "0", "100"]), "+OK\r\n");
    assert_eq!(run(&mut db, &["LLEN", "l"]), ":3\r\n");
    assert_eq!(
        run(&mut db, &["LTRIM", "l", "x", "1"]),
        "-ERR value is not an integer or out of range\r\n"
    );
    assert_eq!(run(&mut db, &["LTRIM", "l", "2", "1"]), "+OK\r\n");
    assert_eq!(run(&mut db, &["EXISTS", "l"]), ":0\r\n");
    assert_eq!(run(&mut db, &["LTRIM", "none", "0", "1"]), "+OK\r\n");
    run(&mut db, &["SET", "s", "v"]);
    let wrong = "-WRONGTYPE Operation against a key holding the wrong kind of value\r\n";
    assert_eq!(run(&mut db, &["LRANGE", "s", "0", "1"]), wrong);
    assert_eq!(run(&mut db, &["LTRIM", "s", "0", "1"]), wrong);
}

#[test]
fn test_lrem() {
    let mut db = Database::new();
    run(&mut db, &["RPUSH", "l", "a", "x", "b", "x", "c", "x"]);
    assert_eq!(at(&mut db, 0, &["EXPIRE", "l", "100"]), ":1\r\n");
    assert_eq!(run(&mut db, &["LREM", "l", "1", "x"]), ":1\r\n");
    assert_eq!(
        run(&mut db, &["LRANGE", "l", "0", "-1"]),
        "*5\r\n$1\r\na\r\n$1\r\nb\r\n$1\r\nx\r\n$1\r\nc\r\n$1\r\nx\r\n"
    );
    assert_eq!(run(&mut db, &["LREM", "l", "-1", "x"]), ":1\r\n");
    assert_eq!(
        run(&mut db, &["LRANGE", "l", "0", "-1"]),
        "*4\r\n$1\r\na\r\n$1\r\nb\r\n$1\r\nx\r\n$1\r\nc\r\n"
    );
    run(&mut db, &["RPUSH", "l", "x", "x"]);
    assert_eq!(run(&mut db, &["LREM", "l", "0", "x"]), ":3\r\n");
    assert_eq!(
        run(&mut db, &["LRANGE", "l", "0", "-1"]),
        "*3\r\n$1\r\na\r\n$1\r\nb\r\n$1\r\nc\r\n"
    );
    assert_eq!(run(&mut db, &["LREM", "l", "5", "zz"]), ":0\r\n");
    assert_eq!(run(&mut db, &["LREM", "l", "-9223372036854775808", "a"]), ":1\r\n");
    assert_eq!(
        run(&mut db, &["LREM", "l", "many", "a"]),
        "-ERR value is not an integer or out of range\r\n"
    );
    assert_eq!(run(&mut db, &["LLEN", "l"]), ":2\r\n");
    assert_eq!(at(&mut db, 0, &["TTL", "l"]), ":100\r\n");
    assert_eq!(run(&mut db, &["LREM", "none", "0", "a"]), ":0\r\n");
    run(&mut db, &["SET", "s", "v"]);
    assert_eq!(
        run(&mut db, &["LREM", "s", "0", "a"]),
        "-WRONGTYPE Operation against a key holding the wrong kind of value\r\n"
    );
    assert_eq!(run(&mut db, &["GET", "s"]), "$1\r\nv\r\n");
}

#[test]
fn test_hashes() {
    let mut db = Database::new();
    assert_eq!(run(&mut db, &["HSET", "h", "a", "1", "b", "2"]), ":2\r\n");
    assert_eq!(run(&mut db, &["HSET", "h", "a", "3", "c", "4", "c", "5"]), ":1\r\n");
    assert_eq!(run(&mut db, &["HMSET", "h", "d", "6"]), "+OK\r\n");
    assert_eq!(
        run(&mut db, &["HSET", "h", "a", "1", "b"]),
        "-ERR wrong number of arguments for HMSET\r\n"
    );
    assert_eq!(
        run(&mut db, &["HSET", "h", "a"]),
        "-ERR wrong number of arguments for 'hset' command\r\n"
    );
    assert_eq!(
        run(&mut db, &["HMSET", "h", "a", "1", "b"]),
        "-ERR wrong number of arguments for HMSET\r\n"
    );
    assert_eq!(run(&mut db, &["HGET", "h", "a"]), "$1\r\n3\r\n");
    assert_eq!(run(&mut db, &["HGET", "h", "zz"]), "$-1\r\n");
    assert_eq!(run(&mut db, &["HGET", "none", "a"]), "$-1\r\n");
    assert_eq!(
        run(&mut db, &["HMGET", "h", "a", "zz", "c"]),
        "*3\r\n$1\r\n3\r\n$-1\r\n$1\r\n5\r\n"
    );
    assert_eq!(run(&mut db, &["HMGET", "none", "a", "b"]), "*2\r\n$-1\r\n$-1\r\n");
    assert_eq!(
        run(&mut db, &["HGETALL", "h"]),
        "*8\r\n$1\r\na\r\n$1\r\n3\r\n$1\r\nb\r\n$1\r\n2\r\n$1\r\nc\r\n$1\r\n5\r\n$1\r\nd\r\n$1\r\n6\r\n"
    );
    assert_eq!(run(&mut db, &["HGETALL", "none"]), "*0\r\n");
    run(&mut db, &["SET", "s", "v"]);
    let wrong = "-WRONGTYPE Operation against a key holding the wrong kind of value\r\n";
    assert_eq!(run(&mut db, &["HSET", "s", "a", "1"]), wrong);
    assert_eq!(run(&mut db, &["HGET", "s", "a"]), wrong);
    assert_eq!(run(&mut db, &["HMGET", "s", "a"]), wrong);
    assert_eq!(run(&mut db, &["HGETALL", "s"]), wrong);
}

#[test]
fn test_server_commands() {
    let mut db = Database::new();
    run(&mut db, &["SET", "k", "v"]);
    assert_eq!(run(&mut db, &["FLUSHDB"]), "+OK\r\n");
    assert_eq!(db.len(), 0);
    assert_eq!(db.capacity(), 0);
    assert_eq!(run(&mut db, &["COMMAND", "COUNT"]), ":35\r\n");
    assert_eq!(
        run(&mut db, &["COMMAND", "INFO", "get", "nope", "SET"]),
        "*3\r\n*2\r\n$3\r\nget\r\n:2\r\n*-1\r\n*2\r\n$3\r\nset\r\n:-3\r\n"
    );
    assert_eq!(run(&mut db, &["COMMAND", "INFO"]), "*0\r\n");
    let all = run(&mut db, &["COMMAND"]);
    assert!(all.starts_with("*35\r\n*2\r\n$3\r\nget\r\n:2\r\n*2\r\n$3\r\nset\r\n:-3\r\n"));
    assert!(all.ends_with("*2\r\n$4\r\nmget\r\n:-2\r\n"));
    assert_eq!(
        run(&mut db, &["command", "help"]),
        "*5\r\n+COMMAND <subcommand> arg arg ... arg. Subcommands are:\r\n\
         +(no subcommand) -- Return details about all Redis commands.\r\n\
         +COUNT -- Return the total number of commands in this Redis server.\r\n\
         +GETKEYS -- NOT SUPPORTED.\r\n\
         +INFO [command-name ...] -- Return details about multiple Redis commands.\r\n"
    );
    assert_eq!(
        run(&mut db, &["command", "nope"]),
        "-ERR Unknown subcommand or wrong number of arguments for 'nope'. Try COMMAND HELP.\r\n"
    );
    assert_eq!(
        run(&mut db, &["debug", "help"]),
        "*3\r\n+DEBUG <subcommand> arg arg ... arg. Subcommands are:\r\n\
         +PANIC -- Crash the server simulating a panic.\r\n\
         +ERROR -- Simulate an error.\r\n"
    );
    assert_eq!(
        run(&mut db, &["debug", "Nope"]),
        "-ERR Unknown subcommand or wrong number of arguments for 'nope'. Try DEBUG HELP.\r\n"
    );
    assert_eq!(run(&mut db, &["DEBUG", "ERROR"]), "-ERR server error\r\n");
}

#[test]
fn test_dispatch_errors() {
    let mut db = Database::new();
    assert_eq!(
        run(&mut db, &["NOPE", "a", "b"]),
        "-ERR unknown command `NOPE`, with args beginning with: `a`, `b`,\r\n"
    );
    assert_eq!(
        run(&mut db, &["nope"]),
        "-ERR unknown command `nope`, with args beginning with: \r\n"
    );
    assert_eq!(
        run(&mut db, &["GET"]),
        "-ERR wrong number of arguments for 'get' command\r\n"
    );
    assert_eq!(
        run(&mut db, &["GET", "a", "b"]),
        "-ERR wrong number of arguments for 'get' command\r\n"
    );
    assert_eq!(
        run(&mut db, &["Set", "a"]),
        "-ERR wrong number of arguments for 'set' command\r\n"
    );
    assert_eq!(
        run(&mut db, &["DEBUG"]),
        "-ERR wrong number of arguments for 'debug' command\r\n"
    );
}

#[test]
fn test_every_command_checks_its_arity() {
    for i in 0..COMMAND_COUNT {
        let command = command_at(i);
        let name = String::from_utf8(command.name.to_vec()).unwrap();
        let wrong = format!("-ERR wrong number of arguments for '{}' command\r\n", name);
        let needed = command.arity.unsigned_abs() as usize;
        // One item too few
        if needed > 1 {
            let mut db = Database::new();
            let mut items = vec![name.as_str()];
            while items.len() < needed - 1 {
                items.push("0");
            }
            assert_eq!(run(&mut db, &items), wrong);
            assert_eq!(db.len(), 0);
        }
        // One item too many, for a command of a fixed number
        if command.arity > 0 {
            let mut db = Database::new();
            let mut items = vec![name.as_str()];
            while items.len() < needed + 1 {
                items.push("0");
            }
            assert_eq!(run(&mut db, &items), wrong);
            assert_eq!(db.len(), 0);
        }
        // The number that it takes
        if name != "debug" {
            let mut db = Database::new();
            let mut items = vec![name.as_str()];
            while items.len() < needed {
                items.push("0");
            }
            assert_ne!(run(&mut db, &items), wrong);
        }
    }
}

#[test]
fn test_execute() {
    let mut db = Database::new();
    let get = lookup("get".into()).unwrap();
    let mut response = Response::new();
    assert_eq!(get.execute(&mut db, &request(&["get"]), &mut response), Ok(()));
    assert_eq!(
        response.as_bytes(),
        b"-ERR wrong number of arguments for 'get' command\r\n"
    );
    let set = lookup("set".into()).unwrap();
    let mut response = Response::new();
    assert_eq!(
        set.execute_at(&mut db, &request(&["set", "k", "v"]), &mut response, 3),
        Ok(())
    );
    assert_eq!(response.as_bytes(), b"+OK\r\n");
    let mut response = Response::new();
    assert_eq!(get.execute(&mut db, &request(&["get", "k"]), &mut response), Ok(()));
    assert_eq!(response.as_bytes(), b"$1\r\nv\r\n");
    let debug = lookup("debug".into()).unwrap();
    let mut response = Response::new();
    assert_eq!(
        debug.execute(&mut db, &request(&["debug", "error"]), &mut response),
        Err(Error::from("A deliberate error from DEBUG ERROR"))
    );
    assert_eq!(response.as_bytes(), b"");
    assert_eq!(respond(&mut db, &request(&["get", "k"])).as_bytes(), b"$1\r\nv\r\n");
}

#[test]
fn test_deliberate_panic_is_told_apart() {
    assert!(requests_panic(&request(&["DEBUG", "PANIC"])));
    assert!(requests_panic(&request(&["debug", "panic", "now"])));
    assert!(!requests_panic(&request(&["debug", "help"])));
    assert!(!requests_panic(&request(&["debug"])));
    assert!(!requests_panic(&request(&["get", "panic"])));
    assert!(is_deliberate_panic(Handler::Debug, &request(&["x", "Panic"])));
    assert!(!is_deliberate_panic(Handler::Get, &request(&["x", "panic"])));
}

#[test]
fn test_binary_keys_and_values() {
    let mut db = Database::new();
    let request = Request::try_from(vec![
        ByteString::from("set"),
        ByteString::from(b"\xff\x00k"),
        ByteString::from(b"\r\n\xfe"),
    ])
    .unwrap();
    assert_eq!(respond_at(&mut db, &request, 0).as_bytes(), b"+OK\r\n");
    let request =
        Request::try_from(vec![ByteString::from("get"), ByteString::from(b"\xff\x00k")]).unwrap();
    assert_eq!(respond_at(&mut db, &request, 0).as_bytes(), b"$3\r\n\r\n\xfe\r\n");
    let request =
        Request::try_from(vec![ByteString::from(b"\xffcmd"), ByteString::from(b"\xfe")]).unwrap();
    assert_eq!(
        respond_at(&mut db, &request, 0).as_bytes(),
        "-ERR unknown command `\u{fffd}cmd`, with args beginning with: `\u{fffd}`,\r\n".as_bytes()
    );
}

#[test]
fn test_clients_on_their_own_keys() {
    // Two clients take turns; neither sees what the other stores
    let mut db = Database::new();
    assert_eq!(run(&mut db, &["SET", "a:1", "one"]), "+OK\r\n");
    assert_eq!(run(&mut db, &["SET", "b:1", "eins"]), "+OK\r\n");
    assert_eq!(run(&mut db, &["GET", "a:1"]), "$3\r\none\r\n");
    assert_eq!(run(&mut db, &["SET", "b:1", "zwei"]), "+OK\r\n");
    assert_eq!(run(&mut db, &["GET", "a:1"]), "$3\r\none\r\n");
    assert_eq!(run(&mut db, &["GET", "b:1"]), "$4\r\nzwei\r\n");
    assert_eq!(run(&mut db, &["DEL", "a:1"]), ":1\r\n");
    assert_eq!(run(&mut db, &["GET", "b:1"]), "$4\r\nzwei\r\n");
    // On a key that both use, each reads the last value stored
    assert_eq!(run(&mut db, &["SET", "shared", "1"]), "+OK\r\n");
    assert_eq!(run(&mut db, &["SET", "shared", "2"]), "+OK\r\n");
    assert_eq!(run(&mut db, &["GET", "shared"]), "$1\r\n2\r\n");
    assert_eq!(run(&mut db, &["GET", "shared"]), "$1\r\n2\r\n");
}
