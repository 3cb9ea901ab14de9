use redis_core::client_handler::{
    classify, Action, ClientHandler, CloseReason, Command, Event, Outcome,
};
use redis_core::db::{DbRecord, DB};
use redis_core::list_commands::{parse_timeout, Timeout};
use redis_core::parser::ParseError;
use redis_core::registry::Registry;
use redis_core::stream_commands::{parse_bound, parse_id, parse_id_request, IdRequest};
use redis_core::stream::{StreamEntry, StreamId};
use redis_core::text::{bytes_eq, bytes_of, find_byte, is_text, to_upper};
use redis_core::values::RedisValue;
use tokio::sync::mpsc::unbounded_channel;

struct Server {
    db: DB,
    registry: Registry,
}

fn server() -> Server {
    Server { db: DB::new(), registry: Registry::new() }
}

fn b(s: &str) -> Vec<u8> {
    s.as_bytes().to_vec()
}

fn bulk(s: &str) -> RedisValue {
    RedisValue::BulkString(b(s))
}

fn request(parts: &[&str]) -> RedisValue {
    RedisValue::Array(parts.iter().map(|p| bulk(p)).collect())
}

fn error(s: &str) -> RedisValue {
    RedisValue::Error(b(s))
}

fn simple(s: &str) -> RedisValue {
    RedisValue::SimpleString(b(s))
}

fn bulks(parts: &[&str]) -> RedisValue {
    RedisValue::Array(parts.iter().map(|p| bulk(p)).collect())
}

fn send(server: &mut Server, client: &mut ClientHandler, now: u64, parts: &[&str]) -> RedisValue {
    match client.handle_frame(&mut server.db, &mut server.registry, now, request(parts)) {
        Action::Reply(value) => value,
        _ => panic!("a reply was expected"),
    }
}

const WRONG_TYPE: &str = "WRONGTYPE Operation against a key holding the wrong kind of value";
const NOT_INTEGER: &str = "ERR value is not an integer or out of range";

#[test]
fn ping_answers_pong() {
    let mut s = server();
    let mut c = ClientHandler::new(1);
    assert_eq!(send(&mut s, &mut c, 0, &["PING"]), simple("PONG"));
    assert_eq!(send(&mut s, &mut c, 0, &["ping"]), simple("PONG"));
    assert_eq!(send(&mut s, &mut c, 0, &["PING"]).encode(), b("+PONG\r\n"));
}

#[test]
fn echo_answers_its_argument() {
    let mut s = server();
    let mut c = ClientHandler::new(1);
    assert_eq!(send(&mut s, &mut c, 0, &["ECHO", "hey"]), bulk("hey"));
    assert_eq!(
        send(&mut s, &mut c, 0, &["ECHO"]),
        error("Err wrong number of arguments for 'ECHO' command")
    );
    assert_eq!(
        send(&mut s, &mut c, 0, &["ECHO", "a", "b"]),
        error("Err wrong number of arguments for 'ECHO' command")
    );
}

#[test]
fn unknown_command_is_named_in_upper_case() {
    let mut s = server();
    let mut c = ClientHandler::new(1);
    assert_eq!(send(&mut s, &mut c, 0, &["frobnicate", "x"]), error("ERR unknown command 'FROBNICATE'"));
    assert_eq!(send(&mut s, &mut c, 0, &["QUIT"]), error("ERR unknown command 'QUIT'"));
}

#[test]
fn arity_errors_keep_the_connection_and_the_store() {
    let mut s = server();
    let mut c = ClientHandler::new(1);
    let cases: Vec<(&[&str], &str)> = vec![
        (&["SET", "k"], "SET"),
        (&["GET"], "GET"),
        (&["GET", "a", "b"], "GET"),
        (&["TYPE"], "TYPE"),
        (&["INCR"], "INCR"),
        (&["RPUSH", "k"], "RPUSH"),
        (&["LPUSH", "k"], "LPUSH"),
        (&["LLEN"], "LLEN"),
        (&["LRANGE", "k", "0"], "LRANGE"),
        (&["LPOP"], "LPOP"),
        (&["LPOP", "k", "1", "2"], "LPOP"),
        (&["BLPOP", "k"], "BLPOP"),
        (&["XADD", "s", "*", "a"], "XADD"),
        (&["XADD", "s", "*"], "XADD"),
        (&["XADD", "s", "*", "a", "1", "b"], "XADD"),
        (&["XRANGE", "s", "-"], "XRANGE"),
        (&["XREAD", "STREAMS", "s"], "XREAD"),
        (&["XREAD", "STREAMS", "s", "t", "0-0"], "XREAD"),
        (&["XREAD", "s", "0-0", "x"], "XREAD"),
        (&["SUBSCRIBE"], "SUBSCRIBE"),
        (&["UNSUBSCRIBE"], "UNSUBSCRIBE"),
        (&["PUBLISH", "c"], "PUBLISH"),
    ];
    for (parts, name) in cases {
        let expected = format!("Err wrong number of arguments for '{}' command", name);
        assert_eq!(send(&mut s, &mut c, 0, parts), error(&expected));
    }
    assert_eq!(s.db.len(), 0);
    assert!(!c.in_subscribe_mode());
}

#[test]
fn set_then_get() {
    let mut s = server();
    let mut c = ClientHandler::new(1);
    assert_eq!(send(&mut s, &mut c, 10, &["SET", "foo", "bar"]), simple("OK"));
    assert_eq!(send(&mut s, &mut c, 11, &["GET", "foo"]), bulk("bar"));
    assert_eq!(send(&mut s, &mut c, 12, &["SET", "foo", "baz"]), simple("OK"));
    assert_eq!(send(&mut s, &mut c, 13, &["GET", "foo"]), bulk("baz"));
    assert_eq!(send(&mut s, &mut c, 13, &["GET", "other"]), RedisValue::NilBulk);
    assert_eq!(send(&mut s, &mut c, 13, &["GET", "foo"]).encode(), b("$3\r\nbaz\r\n"));
}

#[test]
fn get_sees_the_set_of_another_connection() {
    let mut s = server();
    let mut writer = ClientHandler::new(1);
    let mut reader = ClientHandler::new(2);
    assert_eq!(send(&mut s, &mut writer, 0, &["SET", "k", "v1"]), simple("OK"));
    assert_eq!(send(&mut s, &mut reader, 0, &["GET", "k"]), bulk("v1"));
    assert_eq!(send(&mut s, &mut reader, 0, &["SET", "k", "v2"]), simple("OK"));
    assert_eq!(send(&mut s, &mut writer, 0, &["GET", "k"]), bulk("v2"));
}

#[test]
fn set_with_px_and_ex_expires() {
    let mut s = server();
    let mut c = ClientHandler::new(1);
    assert_eq!(send(&mut s, &mut c, 1000, &["SET", "a", "1", "PX", "50"]), simple("OK"));
    assert_eq!(send(&mut s, &mut c, 1049, &["GET", "a"]), bulk("1"));
    assert_eq!(send(&mut s, &mut c, 1050, &["GET", "a"]), RedisValue::NilBulk);
    assert_eq!(send(&mut s, &mut c, 1000, &["SET", "b", "2", "ex", "2"]), simple("OK"));
    assert_eq!(send(&mut s, &mut c, 2999, &["GET", "b"]), bulk("2"));
    assert_eq!(send(&mut s, &mut c, 3000, &["GET", "b"]), RedisValue::NilBulk);
    assert_eq!(send(&mut s, &mut c, 3000, &["TYPE", "b"]), simple("none"));
}

#[test]
fn set_with_bad_expiry_changes_nothing() {
    let mut s = server();
    let mut c = ClientHandler::new(1);
    assert_eq!(send(&mut s, &mut c, 0, &["SET", "a", "old"]), simple("OK"));
    assert_eq!(send(&mut s, &mut c, 0, &["SET", "a", "new", "PX", "soon"]), error(NOT_INTEGER));
    assert_eq!(send(&mut s, &mut c, 0, &["SET", "a", "new", "EX", "-1"]), error(NOT_INTEGER));
    assert_eq!(
        send(&mut s, &mut c, 5, &["SET", "a", "new", "PX", "18446744073709551615"]),
        error(NOT_INTEGER)
    );
    assert_eq!(
        send(&mut s, &mut c, 0, &["SET", "a", "new", "EX", "18446744073709551"]),
        simple("OK")
    );
    assert_eq!(
        send(&mut s, &mut c, 0, &["SET", "a", "newer", "EX", "18446744073709552"]),
        error(NOT_INTEGER)
    );
    assert_eq!(send(&mut s, &mut c, 0, &["GET", "a"]), bulk("new"));
}

#[test]
fn set_ignores_an_option_without_value_and_unknown_options() {
    let mut s = server();
    let mut c = ClientHandler::new(1);
    assert_eq!(send(&mut s, &mut c, 0, &["SET", "a", "1", "PX"]), simple("OK"));
    assert_eq!(send(&mut s, &mut c, u64::MAX, &["GET", "a"]), bulk("1"));
    assert_eq!(send(&mut s, &mut c, 0, &["SET", "b", "2", "KEEP", "5"]), simple("OK"));
    assert_eq!(send(&mut s, &mut c, u64::MAX, &["GET", "b"]), bulk("2"));
}

#[test]
fn set_overwrites_a_record_of_another_kind() {
    let mut s = server();
    let mut c = ClientHandler::new(1);
    assert_eq!(send(&mut s, &mut c, 0, &["RPUSH", "k", "a"]), RedisValue::Integer(1));
    assert_eq!(send(&mut s, &mut c, 0, &["SET", "k", "v"]), simple("OK"));
    assert_eq!(send(&mut s, &mut c, 0, &["TYPE", "k"]), simple("string"));
    assert_eq!(send(&mut s, &mut c, 0, &["GET", "k"]), bulk("v"));
}

#[test]
fn type_names_each_kind() {
    let mut s = server();
    let mut c = ClientHandler::new(1);
    send(&mut s, &mut c, 0, &["SET", "a", "v"]);
    send(&mut s, &mut c, 0, &["RPUSH", "b", "v"]);
    send(&mut s, &mut c, 0, &["XADD", "c", "1-1", "f", "v"]);
    assert_eq!(send(&mut s, &mut c, 0, &["TYPE", "a"]), simple("string"));
    assert_eq!(send(&mut s, &mut c, 0, &["TYPE", "b"]), simple("list"));
    assert_eq!(send(&mut s, &mut c, 0, &["TYPE", "c"]), simple("stream"));
    assert_eq!(send(&mut s, &mut c, 0, &["TYPE", "d"]), simple("none"));
}

#[test]
fn wrong_type_is_never_coerced() {
    let mut s = server();
    let mut c = ClientHandler::new(1);
    send(&mut s, &mut c, 0, &["SET", "str", "v"]);
    send(&mut s, &mut c, 0, &["RPUSH", "list", "v"]);
    send(&mut s, &mut c, 0, &["XADD", "stream", "1-1", "f", "v"]);
    let cases: Vec<&[&str]> = vec![
        &["GET", "list"],
        &["GET", "stream"],
        &["INCR", "list"],
        &["INCR", "stream"],
        &["RPUSH", "str", "x"],
        &["LPUSH", "stream", "x"],
        &["LLEN", "str"],
        &["LRANGE", "stream", "0", "-1"],
        &["LPOP", "str"],
        &["LPOP", "stream", "2"],
        &["BLPOP", "str", "0"],
        &["XADD", "str", "*", "f", "v"],
        &["XADD", "list", "2-2", "f", "v"],
        &["XRANGE", "list", "-", "+"],
        &["XREAD", "STREAMS", "str", "0-0"],
        &["XREAD", "BLOCK", "0", "STREAMS", "stream", "list", "0-0", "0-0"],
    ];
    for parts in cases {
        assert_eq!(send(&mut s, &mut c, 0, parts), error(WRONG_TYPE));
    }
    assert_eq!(send(&mut s, &mut c, 0, &["GET", "str"]), bulk("v"));
    assert_eq!(send(&mut s, &mut c, 0, &["LLEN", "list"]), RedisValue::Integer(1));
    assert_eq!(s.db.len(), 3);
}

#[test]
fn incr_counts() {
    let mut s = server();
    let mut c = ClientHandler::new(1);
    assert_eq!(send(&mut s, &mut c, 0, &["SET", "n", "10"]), simple("OK"));
    assert_eq!(send(&mut s, &mut c, 0, &["INCR", "n"]), RedisValue::Integer(11));
    assert_eq!(send(&mut s, &mut c, 0, &["GET", "n"]), bulk("11"));
    assert_eq!(send(&mut s, &mut c, 0, &["INCR", "fresh"]), RedisValue::Integer(1));
    assert_eq!(send(&mut s, &mut c, 0, &["INCR", "fresh"]), RedisValue::Integer(2));
    assert_eq!(send(&mut s, &mut c, 0, &["GET", "fresh"]), bulk("2"));
    assert_eq!(send(&mut s, &mut c, 0, &["SET", "neg", "-1"]), simple("OK"));
    assert_eq!(send(&mut s, &mut c, 0, &["INCR", "neg"]), RedisValue::Integer(0));
    assert_eq!(send(&mut s, &mut c, 0, &["GET", "neg"]), bulk("0"));
}

#[test]
fn incr_refuses_what_is_no_number() {
    let mut s = server();
    let mut c = ClientHandler::new(1);
    send(&mut s, &mut c, 0, &["SET", "w", "abc"]);
    assert_eq!(send(&mut s, &mut c, 0, &["INCR", "w"]), error(NOT_INTEGER));
    assert_eq!(send(&mut s, &mut c, 0, &["GET", "w"]), bulk("abc"));
    send(&mut s, &mut c, 0, &["SET", "max", "9223372036854775807"]);
    assert_eq!(send(&mut s, &mut c, 0, &["INCR", "max"]), error(NOT_INTEGER));
    assert_eq!(send(&mut s, &mut c, 0, &["GET", "max"]), bulk("9223372036854775807"));
    send(&mut s, &mut c, 0, &["SET", "empty", ""]);
    assert_eq!(send(&mut s, &mut c, 0, &["INCR", "empty"]), error(NOT_INTEGER));
}

#[test]
fn incr_keeps_the_limit_and_restarts_after_expiry() {
    let mut s = server();
    let mut c = ClientHandler::new(1);
    send(&mut s, &mut c, 100, &["SET", "n", "5", "PX", "100"]);
    assert_eq!(send(&mut s, &mut c, 150, &["INCR", "n"]), RedisValue::Integer(6));
    assert_eq!(send(&mut s, &mut c, 199, &["GET", "n"]), bulk("6"));
    assert_eq!(send(&mut s, &mut c, 200, &["GET", "n"]), RedisValue::NilBulk);
    assert_eq!(send(&mut s, &mut c, 200, &["INCR", "n"]), RedisValue::Integer(1));
    assert_eq!(send(&mut s, &mut c, u64::MAX, &["GET", "n"]), bulk("1"));
}

#[test]
fn rpush_and_lpush_order() {
    let mut s = server();
    let mut c = ClientHandler::new(1);
    assert_eq!(send(&mut s, &mut c, 0, &["RPUSH", "l", "a", "b"]), RedisValue::Integer(2));
    assert_eq!(send(&mut s, &mut c, 0, &["LPUSH", "l", "x", "y", "z"]), RedisValue::Integer(5));
    assert_eq!(
        send(&mut s, &mut c, 0, &["LRANGE", "l", "0", "-1"]),
        bulks(&["z", "y", "x", "a", "b"])
    );
    assert_eq!(send(&mut s, &mut c, 0, &["LLEN", "l"]), RedisValue::Integer(5));
    assert_eq!(send(&mut s, &mut c, 0, &["LLEN", "nothing"]), RedisValue::Integer(0));
}

#[test]
fn push_replaces_an_expired_string() {
    let mut s = server();
    let mut c = ClientHandler::new(1);
    send(&mut s, &mut c, 0, &["SET", "k", "v", "PX", "10"]);
    assert_eq!(send(&mut s, &mut c, 5, &["RPUSH", "k", "a"]), error(WRONG_TYPE));
    assert_eq!(send(&mut s, &mut c, 10, &["RPUSH", "k", "a"]), RedisValue::Integer(1));
    assert_eq!(send(&mut s, &mut c, 10, &["TYPE", "k"]), simple("list"));
}

#[test]
fn lrange_with_negative_indices() {
    let mut s = server();
    let mut c = ClientHandler::new(1);
    send(&mut s, &mut c, 0, &["RPUSH", "k", "a", "b", "c"]);
    assert_eq!(send(&mut s, &mut c, 0, &["LRANGE", "k", "-100", "-1"]), bulks(&["a", "b", "c"]));
    assert_eq!(send(&mut s, &mut c, 0, &["LRANGE", "k", "5", "10"]), bulks(&[]));
    assert_eq!(send(&mut s, &mut c, 0, &["LRANGE", "k", "1", "1"]), bulks(&["b"]));
    assert_eq!(send(&mut s, &mut c, 0, &["LRANGE", "k", "-2", "100"]), bulks(&["b", "c"]));
    assert_eq!(send(&mut s, &mut c, 0, &["LRANGE", "missing", "0", "-1"]), bulks(&[]));
    assert_eq!(send(&mut s, &mut c, 0, &["LRANGE", "k", "zero", "1"]), error(NOT_INTEGER));
    assert_eq!(send(&mut s, &mut c, 0, &["LRANGE", "k", "0", "1.5"]), error(NOT_INTEGER));
    assert_eq!(
        send(&mut s, &mut c, 0, &["LRANGE", "k", "-100", "-1"]).encode(),
        b("*3\r\n$1\r\na\r\n$1\r\nb\r\n$1\r\nc\r\n")
    );
}

#[test]
fn lpop_with_and_without_count() {
    let mut s = server();
    let mut c = ClientHandler::new(1);
    send(&mut s, &mut c, 0, &["RPUSH", "k", "a", "b", "c", "d"]);
    assert_eq!(send(&mut s, &mut c, 0, &["LPOP", "k"]), bulk("a"));
    assert_eq!(send(&mut s, &mut c, 0, &["LPOP", "k", "2"]), bulks(&["b", "c"]));
    assert_eq!(send(&mut s, &mut c, 0, &["LPOP", "k", "0"]), bulks(&[]));
    assert_eq!(send(&mut s, &mut c, 0, &["LPOP", "k", "10"]), bulks(&["d"]));
    assert_eq!(send(&mut s, &mut c, 0, &["LPOP", "k"]), RedisValue::NilBulk);
    assert_eq!(send(&mut s, &mut c, 0, &["LPOP", "k", "3"]), bulks(&[]));
    assert_eq!(send(&mut s, &mut c, 0, &["LPOP", "missing"]), RedisValue::NilBulk);
    assert_eq!(send(&mut s, &mut c, 0, &["LPOP", "missing", "3"]), bulks(&[]));
    assert_eq!(send(&mut s, &mut c, 0, &["LPOP", "k", "-1"]), error(NOT_INTEGER));
    assert_eq!(send(&mut s, &mut c, 0, &["LPOP", "k", "few"]), error(NOT_INTEGER));
    assert_eq!(send(&mut s, &mut c, 0, &["LLEN", "k"]), RedisValue::Integer(0));
}

#[test]
fn pushed_values_come_back_on_pop() {
    let mut s = server();
    let mut c = ClientHandler::new(1);
    send(&mut s, &mut c, 0, &["RPUSH", "k", "1", "2", "3"]);
    send(&mut s, &mut c, 0, &["LPUSH", "k", "0"]);
    let mut popped = Vec::new();
    loop {
        match send(&mut s, &mut c, 0, &["LPOP", "k"]) {
            RedisValue::BulkString(v) => popped.push(v),
            RedisValue::NilBulk => break,
            other => panic!("unexpected {:?}", other),
        }
    }
    assert_eq!(popped, vec![b("0"), b("1"), b("2"), b("3")]);
}

#[test]
fn blpop_takes_an_element_that_is_there() {
    let mut s = server();
    let mut c = ClientHandler::new(1);
    send(&mut s, &mut c, 0, &["RPUSH", "q", "a", "b"]);
    assert_eq!(send(&mut s, &mut c, 0, &["BLPOP", "q", "0"]), bulks(&["q", "a"]));
    assert_eq!(send(&mut s, &mut c, 0, &["BLPOP", "q", "1.5"]), bulks(&["q", "b"]));
    assert_eq!(send(&mut s, &mut c, 0, &["LLEN", "q"]), RedisValue::Integer(0));
}

#[test]
fn blpop_waits_at_an_empty_list() {
    let mut s = server();
    let mut c = ClientHandler::new(1);
    let action = c.handle_frame(&mut s.db, &mut s.registry, 0, request(&["BLPOP", "q", "0.1"]));
    match action {
        Action::AwaitList { key, mut receiver, timeout } => {
            assert_eq!(key, b("q"));
            assert_eq!(timeout, Timeout::Millis(100));
            assert!(receiver.try_recv().is_err());
            assert_eq!(ClientHandler::finish_list_wait(&key, None), RedisValue::NilArray);
            assert_eq!(ClientHandler::finish_list_wait(&key, None).encode(), b("*-1\r\n"));
        }
        _ => panic!("a wait was expected"),
    }
    assert_eq!(send(&mut s, &mut c, 0, &["TYPE", "q"]), simple("list"));
    assert_eq!(send(&mut s, &mut c, 0, &["LLEN", "q"]), RedisValue::Integer(0));
}

#[test]
fn blpop_with_bad_timeout() {
    let mut s = server();
    let mut c = ClientHandler::new(1);
    for bad in ["", "x", "-1", "1.", ".5", "1.2.3", "1e3", "18446744073709551615"] {
        assert_eq!(
            send(&mut s, &mut c, 0, &["BLPOP", "q", bad]),
            error("ERR timeout is not a float or out of range")
        );
    }
    assert_eq!(s.db.len(), 0);
}

#[test]
fn waiters_are_served_oldest_first() {
    let mut s = server();
    let mut first = ClientHandler::new(1);
    let mut second = ClientHandler::new(2);
    let mut pusher = ClientHandler::new(3);
    let mut rx1 = match first.handle_frame(&mut s.db, &mut s.registry, 0, request(&["BLPOP", "q", "0"])) {
        Action::AwaitList { receiver, timeout, .. } => {
            assert_eq!(timeout, Timeout::Forever);
            receiver
        }
        _ => panic!("a wait was expected"),
    };
    let mut rx2 = match second.handle_frame(&mut s.db, &mut s.registry, 0, request(&["BLPOP", "q", "0"])) {
        Action::AwaitList { receiver, .. } => receiver,
        _ => panic!("a wait was expected"),
    };
    assert_eq!(send(&mut s, &mut pusher, 0, &["RPUSH", "q", "one", "two", "three"]), RedisValue::Integer(3));
    assert_eq!(rx1.try_recv().ok(), Some(b("one")));
    assert!(rx1.try_recv().is_err());
    assert_eq!(rx2.try_recv().ok(), Some(b("two")));
    assert!(rx2.try_recv().is_err());
    assert_eq!(send(&mut s, &mut pusher, 0, &["LRANGE", "q", "0", "-1"]), bulks(&["three"]));
}

#[test]
fn a_waiter_that_gave_up_is_passed_over() {
    let mut s = server();
    let mut waiter = ClientHandler::new(1);
    let mut pusher = ClientHandler::new(2);
    match waiter.handle_frame(&mut s.db, &mut s.registry, 0, request(&["BLPOP", "q", "0.05"])) {
        Action::AwaitList { receiver, .. } => drop(receiver),
        _ => panic!("a wait was expected"),
    }
    assert_eq!(send(&mut s, &mut pusher, 0, &["RPUSH", "q", "v"]), RedisValue::Integer(1));
    assert_eq!(send(&mut s, &mut pusher, 0, &["LRANGE", "q", "0", "-1"]), bulks(&["v"]));
}

#[test]
fn parse_timeout_cases() {
    assert_eq!(parse_timeout(b"0"), Some(Timeout::Forever));
    assert_eq!(parse_timeout(b"0.0"), Some(Timeout::Forever));
    assert_eq!(parse_timeout(b"000.000000"), Some(Timeout::Forever));
    assert_eq!(parse_timeout(b"0.1"), Some(Timeout::Millis(100)));
    assert_eq!(parse_timeout(b"0.0001"), Some(Timeout::Millis(0)));
    assert_eq!(parse_timeout(b"1"), Some(Timeout::Millis(1000)));
    assert_eq!(parse_timeout(b"2.5"), Some(Timeout::Millis(2500)));
    assert_eq!(parse_timeout(b"1.2345"), Some(Timeout::Millis(1234)));
    assert_eq!(parse_timeout(b"10.05"), Some(Timeout::Millis(10050)));
    assert_eq!(parse_timeout(b"18446744073709551.615"), Some(Timeout::Millis(u64::MAX)));
    assert_eq!(parse_timeout(b"18446744073709551.616"), None);
    assert_eq!(parse_timeout(b"18446744073709552"), None);
    assert_eq!(parse_timeout(b""), None);
    assert_eq!(parse_timeout(b"."), None);
    assert_eq!(parse_timeout(b"1."), None);
    assert_eq!(parse_timeout(b".1"), None);
    assert_eq!(parse_timeout(b"-1"), None);
    assert_eq!(parse_timeout(b"1.a"), None);
}

#[test]
fn xadd_with_explicit_ids() {
    let mut s = server();
    let mut c = ClientHandler::new(1);
    let too_small = "ERR The ID specified in XADD is equal or smaller than the target stream top item";
    assert_eq!(
        send(&mut s, &mut c, 0, &["XADD", "s", "0-0", "a", "1"]),
        error("ERR The ID specified in XADD must be greater than 0-0")
    );
    assert_eq!(send(&mut s, &mut c, 0, &["TYPE", "s"]), simple("none"));
    assert_eq!(send(&mut s, &mut c, 0, &["XADD", "s", "1-1", "a", "1"]), bulk("1-1"));
    assert_eq!(send(&mut s, &mut c, 0, &["XADD", "s", "1-1", "a", "2"]), error(too_small));
    assert_eq!(send(&mut s, &mut c, 0, &["XADD", "s", "1-0", "a", "2"]), error(too_small));
    assert_eq!(send(&mut s, &mut c, 0, &["XADD", "s", "0-9", "a", "2"]), error(too_small));
    assert_eq!(send(&mut s, &mut c, 0, &["XADD", "s", "1-2", "a", "2"]), bulk("1-2"));
    assert_eq!(send(&mut s, &mut c, 0, &["XADD", "s", "2-0", "a", "3"]), bulk("2-0"));
    assert_eq!(
        send(&mut s, &mut c, 0, &["XADD", "s", "0-0", "a", "1"]),
        error("ERR The ID specified in XADD must be greater than 0-0")
    );
    assert_eq!(
        send(&mut s, &mut c, 0, &["XRANGE", "s", "-", "+"]),
        RedisValue::Array(vec![
            RedisValue::Array(vec![bulk("1-1"), bulks(&["a", "1"])]),
            RedisValue::Array(vec![bulk("1-2"), bulks(&["a", "2"])]),
            RedisValue::Array(vec![bulk("2-0"), bulks(&["a", "3"])]),
        ])
    );
}

#[test]
fn xadd_with_automatic_sequence() {
    let mut s = server();
    let mut c = ClientHandler::new(1);
    assert_eq!(send(&mut s, &mut c, 0, &["XADD", "s", "0-*", "a", "1"]), bulk("0-1"));
    assert_eq!(send(&mut s, &mut c, 0, &["XADD", "s", "0-*", "a", "1"]), bulk("0-2"));
    assert_eq!(send(&mut s, &mut c, 0, &["XADD", "s", "5-*", "a", "1"]), bulk("5-0"));
    assert_eq!(send(&mut s, &mut c, 0, &["XADD", "s", "5-*", "a", "1"]), bulk("5-1"));
    assert_eq!(
        send(&mut s, &mut c, 0, &["XADD", "s", "4-*", "a", "1"]),
        error("ERR The ID specified in XADD is equal or smaller than the target stream top item")
    );
    assert_eq!(
        send(&mut s, &mut c, 0, &["XADD", "s", "5-18446744073709551615", "a", "1"]),
        bulk("5-18446744073709551615")
    );
    assert_eq!(
        send(&mut s, &mut c, 0, &["XADD", "s", "5-*", "a", "1"]),
        error("ERR The ID specified in XADD is equal or smaller than the target stream top item")
    );
}

#[test]
fn xadd_with_the_clock() {
    let mut s = server();
    let mut c = ClientHandler::new(1);
    assert_eq!(send(&mut s, &mut c, 1700, &["XADD", "s", "*", "a", "1"]), bulk("1700-0"));
    assert_eq!(send(&mut s, &mut c, 1700, &["XADD", "s", "*", "b", "2"]), bulk("1700-1"));
    assert_eq!(send(&mut s, &mut c, 1700, &["XADD", "s", "1700-*", "b", "2"]), bulk("1700-2"));
    assert_eq!(send(&mut s, &mut c, 1701, &["XADD", "s", "*", "c", "3"]), bulk("1701-0"));
    assert_eq!(
        send(&mut s, &mut c, 1500, &["XADD", "s", "*", "c", "3"]),
        error("ERR The ID specified in XADD is equal or smaller than the target stream top item")
    );
    assert_eq!(send(&mut s, &mut c, 0, &["XADD", "fresh", "*", "a", "1"]), bulk("0-1"));
}

#[test]
fn xadd_with_ids_that_cannot_be_read() {
    let mut s = server();
    let mut c = ClientHandler::new(1);
    for bad in ["", "1", "a-b", "1-", "-1", "1-2-3", "**", "*-1", "1-x", "99999999999999999999-0"] {
        assert_eq!(
            send(&mut s, &mut c, 0, &["XADD", "s", bad, "a", "1"]),
            error("ERR Invalid stream ID specified as stream command argument")
        );
    }
    assert_eq!(s.db.len(), 0);
}

#[test]
fn xadd_keeps_the_last_value_of_a_repeated_field() {
    let mut s = server();
    let mut c = ClientHandler::new(1);
    send(&mut s, &mut c, 0, &["XADD", "s", "1-1", "a", "1", "b", "2", "a", "3"]);
    assert_eq!(
        send(&mut s, &mut c, 0, &["XRANGE", "s", "-", "+"]),
        RedisValue::Array(vec![RedisValue::Array(vec![bulk("1-1"), bulks(&["a", "3", "b", "2"])])])
    );
}

#[test]
fn xrange_bounds() {
    let mut s = server();
    let mut c = ClientHandler::new(1);
    for id in ["1-0", "1-5", "2-0", "2-7", "3-1"] {
        send(&mut s, &mut c, 0, &["XADD", "s", id, "f", id]);
    }
    let ids = |value: RedisValue| -> Vec<Vec<u8>> {
        match value {
            RedisValue::Array(entries) => entries
                .into_iter()
                .map(|e| match e {
                    RedisValue::Array(parts) => parts[0].get_string().unwrap(),
                    _ => panic!("an entry was expected"),
                })
                .collect(),
            other => panic!("unexpected {:?}", other),
        }
    };
    assert_eq!(ids(send(&mut s, &mut c, 0, &["XRANGE", "s", "-", "+"])).len(), 5);
    assert_eq!(ids(send(&mut s, &mut c, 0, &["XRANGE", "s", "2", "2"])), vec![b("2-0"), b("2-7")]);
    assert_eq!(ids(send(&mut s, &mut c, 0, &["XRANGE", "s", "1-5", "2-0"])), vec![b("1-5"), b("2-0")]);
    assert_eq!(ids(send(&mut s, &mut c, 0, &["XRANGE", "s", "1-6", "1"])), Vec::<Vec<u8>>::new());
    assert_eq!(ids(send(&mut s, &mut c, 0, &["XRANGE", "s", "3", "+"])), vec![b("3-1")]);
    assert_eq!(ids(send(&mut s, &mut c, 0, &["XRANGE", "s", "-", "1"])), vec![b("1-0"), b("1-5")]);
    assert_eq!(ids(send(&mut s, &mut c, 0, &["XRANGE", "s", "4", "9"])), Vec::<Vec<u8>>::new());
    assert_eq!(ids(send(&mut s, &mut c, 0, &["XRANGE", "missing", "-", "+"])), Vec::<Vec<u8>>::new());
    let invalid = error("ERR Invalid stream ID specified as stream command argument");
    assert_eq!(send(&mut s, &mut c, 0, &["XRANGE", "s", "+", "-"]), invalid);
    assert_eq!(send(&mut s, &mut c, 0, &["XRANGE", "s", "a", "+"]), invalid);
    assert_eq!(send(&mut s, &mut c, 0, &["XRANGE", "s", "-", "1-"]), invalid);
}

#[test]
fn xread_gives_entries_behind_the_id() {
    let mut s = server();
    let mut c = ClientHandler::new(1);
    send(&mut s, &mut c, 0, &["XADD", "a", "1-1", "f", "1"]);
    send(&mut s, &mut c, 0, &["XADD", "a", "2-0", "f", "2"]);
    send(&mut s, &mut c, 0, &["XADD", "b", "7-0", "g", "3"]);
    assert_eq!(
        send(&mut s, &mut c, 0, &["XREAD", "STREAMS", "a", "1-1"]),
        RedisValue::Array(vec![RedisValue::Array(vec![
            bulk("a"),
            RedisValue::Array(vec![RedisValue::Array(vec![bulk("2-0"), bulks(&["f", "2"])])]),
        ])])
    );
    assert_eq!(
        send(&mut s, &mut c, 0, &["xread", "streams", "a", "b", "0-0", "0"]),
        RedisValue::Array(vec![
            RedisValue::Array(vec![
                bulk("a"),
                RedisValue::Array(vec![
                    RedisValue::Array(vec![bulk("1-1"), bulks(&["f", "1"])]),
                    RedisValue::Array(vec![bulk("2-0"), bulks(&["f", "2"])]),
                ]),
            ]),
            RedisValue::Array(vec![
                bulk("b"),
                RedisValue::Array(vec![RedisValue::Array(vec![bulk("7-0"), bulks(&["g", "3"])])]),
            ]),
        ])
    );
    assert_eq!(
        send(&mut s, &mut c, 0, &["XREAD", "STREAMS", "a", "b", "2-0", "6"]),
        RedisValue::Array(vec![RedisValue::Array(vec![
            bulk("b"),
            RedisValue::Array(vec![RedisValue::Array(vec![bulk("7-0"), bulks(&["g", "3"])])]),
        ])])
    );
    assert_eq!(send(&mut s, &mut c, 0, &["XREAD", "STREAMS", "a", "b", "$", "$"]), bulks(&[]));
    assert_eq!(send(&mut s, &mut c, 0, &["XREAD", "STREAMS", "a", "2-0"]), bulks(&[]));
    assert_eq!(send(&mut s, &mut c, 0, &["XREAD", "STREAMS", "missing", "0-0"]), bulks(&[]));
    assert_eq!(
        send(&mut s, &mut c, 0, &["XREAD", "STREAMS", "a", "what"]),
        error("ERR Invalid stream ID specified as stream command argument")
    );
    assert_eq!(
        send(&mut s, &mut c, 0, &["XREAD", "BLOCK", "soon", "STREAMS", "a", "0-0"]),
        error(NOT_INTEGER)
    );
    assert_eq!(
        send(&mut s, &mut c, 0, &["XREAD", "BLOCK", "5", "STREAMS", "a", "0-0"]),
        RedisValue::Array(vec![RedisValue::Array(vec![
            bulk("a"),
            RedisValue::Array(vec![
                RedisValue::Array(vec![bulk("1-1"), bulks(&["f", "1"])]),
                RedisValue::Array(vec![bulk("2-0"), bulks(&["f", "2"])]),
            ]),
        ])])
    );
}

#[test]
fn xread_block_waits_and_is_woken_by_xadd() {
    let mut s = server();
    let mut reader = ClientHandler::new(1);
    let mut writer = ClientHandler::new(2);
    send(&mut s, &mut writer, 0, &["XADD", "a", "5-0", "f", "old"]);
    let action = reader.handle_frame(
        &mut s.db,
        &mut s.registry,
        0,
        request(&["XREAD", "BLOCK", "250", "STREAMS", "a", "b", "$", "9-0"]),
    );
    let (keys, mut receivers) = match action {
        Action::AwaitStreams { keys, receivers, timeout } => {
            assert_eq!(timeout, Timeout::Millis(250));
            (keys, receivers)
        }
        _ => panic!("a wait was expected"),
    };
    assert_eq!(keys, vec![b("a"), b("b")]);
    assert_eq!(receivers.len(), 2);
    assert_eq!(send(&mut s, &mut writer, 0, &["TYPE", "b"]), simple("stream"));
    assert_eq!(send(&mut s, &mut writer, 0, &["XADD", "b", "8-0", "g", "early"]), bulk("8-0"));
    assert!(receivers[1].try_recv().is_err());
    assert_eq!(send(&mut s, &mut writer, 0, &["XADD", "a", "5-1", "f", "new"]), bulk("5-1"));
    let arrived = receivers[0].try_recv().ok();
    assert_eq!(arrived.as_ref().map(|e| e.get_id()), Some(b("5-1")));
    assert_eq!(
        ClientHandler::finish_stream_wait(&keys[0], arrived),
        RedisValue::Array(vec![RedisValue::Array(vec![
            bulk("a"),
            RedisValue::Array(vec![RedisValue::Array(vec![bulk("5-1"), bulks(&["f", "new"])])]),
        ])])
    );
    assert_eq!(ClientHandler::finish_stream_wait(&keys[0], None), RedisValue::NilArray);
}

#[test]
fn xread_block_zero_waits_forever() {
    let mut s = server();
    let mut reader = ClientHandler::new(1);
    match reader.handle_frame(
        &mut s.db,
        &mut s.registry,
        0,
        request(&["XREAD", "BLOCK", "0", "STREAMS", "a", "$"]),
    ) {
        Action::AwaitStreams { timeout, receivers, .. } => {
            assert_eq!(timeout, Timeout::Forever);
            assert_eq!(receivers.len(), 1);
        }
        _ => panic!("a wait was expected"),
    }
}

#[test]
fn parse_stream_ids() {
    assert_eq!(parse_id(b"12-34"), Some(StreamId { ms: 12, seq: 34 }));
    assert_eq!(parse_id(b"12"), None);
    assert_eq!(parse_id(b"12-"), None);
    assert_eq!(parse_id(b"-34"), None);
    assert_eq!(parse_bound(b"12", 0), Some(StreamId { ms: 12, seq: 0 }));
    assert_eq!(parse_bound(b"12", u64::MAX), Some(StreamId { ms: 12, seq: u64::MAX }));
    assert_eq!(parse_bound(b"12-3", u64::MAX), Some(StreamId { ms: 12, seq: 3 }));
    assert_eq!(parse_bound(b"x", 0), None);
    assert_eq!(parse_id_request(b"*"), Some(IdRequest::Auto));
    assert_eq!(parse_id_request(b"7-*"), Some(IdRequest::AutoSeq(7)));
    assert_eq!(parse_id_request(b"7-8"), Some(IdRequest::Exact(StreamId { ms: 7, seq: 8 })));
    assert_eq!(parse_id_request(b"-*"), None);
    assert_eq!(parse_id_request(b"7"), None);
}

#[test]
fn multi_queues_and_exec_runs() {
    let mut s = server();
    let mut c = ClientHandler::new(1);
    assert_eq!(send(&mut s, &mut c, 0, &["MULTI"]), simple("OK"));
    assert!(c.in_multi_mode());
    assert_eq!(send(&mut s, &mut c, 0, &["SET", "k", "1"]), simple("QUEUED"));
    assert_eq!(send(&mut s, &mut c, 0, &["INCR", "k"]), simple("QUEUED"));
    assert_eq!(s.db.len(), 0);
    assert_eq!(
        send(&mut s, &mut c, 0, &["EXEC"]),
        RedisValue::Array(vec![simple("OK"), RedisValue::Integer(2)])
    );
    assert!(!c.in_multi_mode());
    assert_eq!(send(&mut s, &mut c, 0, &["GET", "k"]), bulk("2"));
    assert_eq!(send(&mut s, &mut c, 0, &["GET", "k"]).encode(), b("$1\r\n2\r\n"));
}

#[test]
fn exec_without_multi_and_nested_multi() {
    let mut s = server();
    let mut c = ClientHandler::new(1);
    assert_eq!(send(&mut s, &mut c, 0, &["EXEC"]), error("ERR EXEC without MULTI"));
    assert_eq!(send(&mut s, &mut c, 0, &["MULTI"]), simple("OK"));
    assert_eq!(send(&mut s, &mut c, 0, &["MULTI"]), error("ERR MULTI calls can not be nested"));
    assert!(c.in_multi_mode());
    assert_eq!(send(&mut s, &mut c, 0, &["EXEC"]), bulks(&[]));
    assert_eq!(send(&mut s, &mut c, 0, &["EXEC"]), error("ERR EXEC without MULTI"));
}

#[test]
fn discard_forgets_the_queue() {
    let mut s = server();
    let mut c = ClientHandler::new(1);
    assert_eq!(send(&mut s, &mut c, 0, &["DISCARD"]), simple("OK"));
    send(&mut s, &mut c, 0, &["MULTI"]);
    assert_eq!(send(&mut s, &mut c, 0, &["SET", "k", "1"]), simple("QUEUED"));
    assert_eq!(send(&mut s, &mut c, 0, &["DISCARD"]), simple("OK"));
    assert!(!c.in_multi_mode());
    assert_eq!(send(&mut s, &mut c, 0, &["GET", "k"]), RedisValue::NilBulk);
    send(&mut s, &mut c, 0, &["MULTI"]);
    assert_eq!(send(&mut s, &mut c, 0, &["EXEC"]), bulks(&[]));
}

#[test]
fn exec_records_errors_and_goes_on() {
    let mut s = server();
    let mut c = ClientHandler::new(1);
    send(&mut s, &mut c, 0, &["RPUSH", "l", "a"]);
    send(&mut s, &mut c, 0, &["MULTI"]);
    assert_eq!(send(&mut s, &mut c, 0, &["GET"]), simple("QUEUED"));
    assert_eq!(send(&mut s, &mut c, 0, &["INCR", "l"]), simple("QUEUED"));
    assert_eq!(send(&mut s, &mut c, 0, &["NOPE"]), simple("QUEUED"));
    assert_eq!(send(&mut s, &mut c, 0, &["BLPOP", "empty", "0"]), simple("QUEUED"));
    assert_eq!(send(&mut s, &mut c, 0, &["XREAD", "BLOCK", "0", "STREAMS", "s", "$"]), simple("QUEUED"));
    assert_eq!(send(&mut s, &mut c, 0, &["RPUSH", "l", "b"]), simple("QUEUED"));
    assert_eq!(
        send(&mut s, &mut c, 0, &["EXEC"]),
        RedisValue::Array(vec![
            error("Err wrong number of arguments for 'GET' command"),
            error(WRONG_TYPE),
            error("ERR unknown command 'NOPE'"),
            RedisValue::NilArray,
            RedisValue::NilArray,
            RedisValue::Integer(2),
        ])
    );
    assert_eq!(send(&mut s, &mut c, 0, &["LRANGE", "l", "0", "-1"]), bulks(&["a", "b"]));
}

#[test]
fn frames_that_are_no_requests_are_passed_over() {
    let mut s = server();
    let mut c = ClientHandler::new(1);
    for frame in [
        RedisValue::Array(vec![]),
        simple("PING"),
        bulk("PING"),
        RedisValue::Integer(1),
        RedisValue::NilArray,
        RedisValue::NilBulk,
        error("x"),
    ] {
        assert!(matches!(
            c.handle_frame(&mut s.db, &mut s.registry, 0, frame),
            Action::Nothing
        ));
    }
}

#[test]
fn a_request_with_something_that_is_no_string_closes() {
    let mut s = server();
    let mut c = ClientHandler::new(1);
    let frame = RedisValue::Array(vec![bulk("ECHO"), RedisValue::Integer(5)]);
    assert!(matches!(
        c.handle_frame(&mut s.db, &mut s.registry, 0, frame),
        Action::Close(CloseReason::NotAString)
    ));
    let frame = RedisValue::Array(vec![RedisValue::Array(vec![]), bulk("x")]);
    assert!(matches!(
        c.handle_frame(&mut s.db, &mut s.registry, 0, frame),
        Action::Close(CloseReason::NotAString)
    ));
    let frame = RedisValue::Array(vec![simple("PING")]);
    assert!(matches!(
        c.handle_frame(&mut s.db, &mut s.registry, 0, frame),
        Action::Reply(_)
    ));
}

#[test]
fn handle_commands_takes_the_name_as_given() {
    let mut s = server();
    let mut c = ClientHandler::new(1);
    let outcome = c.handle_commands(
        &mut s.db,
        &mut s.registry,
        0,
        b"ECHO",
        vec![b("whatever"), b("hi")],
    );
    assert!(matches!(outcome, Outcome::Reply(v) if v == bulk("hi")));
    let outcome = c.handle_commands(&mut s.db, &mut s.registry, 0, b"echo", vec![b("echo"), b("hi")]);
    assert!(matches!(outcome, Outcome::Reply(v) if v == error("ERR unknown command 'echo'")));
}

#[test]
fn run_does_not_block_when_told_not_to() {
    let mut s = server();
    let mut c = ClientHandler::new(1);
    let outcome = c.run(&mut s.db, &mut s.registry, 0, b"BLPOP", &vec![b("BLPOP"), b("q"), b("0")], false);
    assert!(matches!(outcome, Outcome::Reply(RedisValue::NilArray)));
    assert_eq!(s.db.len(), 0);
    let outcome = c.run(&mut s.db, &mut s.registry, 0, b"BLPOP", &vec![b("BLPOP"), b("q"), b("0")], true);
    assert!(matches!(outcome, Outcome::AwaitList { .. }));
    assert_eq!(s.db.len(), 1);
}

#[test]
fn shared_access_answers_what_only_reads() {
    let mut s = server();
    let mut c = ClientHandler::new(1);
    send(&mut s, &mut c, 0, &["SET", "k", "v"]);
    send(&mut s, &mut c, 0, &["RPUSH", "l", "a", "b"]);
    send(&mut s, &mut c, 0, &["XADD", "s", "1-1", "f", "v"]);
    let reads: Vec<(&[&str], RedisValue)> = vec![
        (&["PING"], simple("PONG")),
        (&["ECHO", "x"], bulk("x")),
        (&["GET", "k"], bulk("v")),
        (&["get", "missing"], RedisValue::NilBulk),
        (&["TYPE", "l"], simple("list")),
        (&["LLEN", "l"], RedisValue::Integer(2)),
        (&["LRANGE", "l", "0", "-1"], bulks(&["a", "b"])),
        (&["XRANGE", "s", "2", "+"], bulks(&[])),
        (&["XREAD", "STREAMS", "s", "1-1"], bulks(&[])),
        (&["PUBLISH", "c", "m"], RedisValue::Integer(0)),
        (&["NOPE"], error("ERR unknown command 'NOPE'")),
        (&["GET"], error("Err wrong number of arguments for 'GET' command")),
        (&["EXEC"], error("ERR EXEC without MULTI")),
        (&["XREAD", "BLOCK", "x", "STREAMS", "s", "$"], error(NOT_INTEGER)),
    ];
    for (parts, expected) in reads {
        match c.handle_frame_shared_at(&s.db, &s.registry, 0, &request(parts)) {
            Some(Action::Reply(value)) => assert_eq!(value, expected),
            _ => panic!("a reply was expected"),
        }
    }
    assert!(matches!(
        c.handle_frame_shared_at(&s.db, &s.registry, 0, &simple("PING")),
        Some(Action::Nothing)
    ));
    assert!(matches!(
        c.handle_frame_shared_at(&s.db, &s.registry, 0, &RedisValue::Array(vec![])),
        Some(Action::Nothing)
    ));
}

#[test]
fn shared_access_declines_what_changes_something() {
    let mut s = server();
    let mut c = ClientHandler::new(1);
    let writes: Vec<&[&str]> = vec![
        &["SET", "k", "v"],
        &["INCR", "k"],
        &["RPUSH", "l", "a"],
        &["LPUSH", "l", "a"],
        &["LPOP", "l"],
        &["BLPOP", "l", "0"],
        &["XADD", "s", "*", "a", "1"],
        &["XREAD", "BLOCK", "0", "STREAMS", "s", "$"],
        &["SUBSCRIBE", "c"],
        &["UNSUBSCRIBE", "c"],
        &["SET"],
    ];
    for parts in writes {
        assert!(c.handle_frame_shared_at(&s.db, &s.registry, 0, &request(parts)).is_none());
    }
    let broken = RedisValue::Array(vec![bulk("GET"), RedisValue::Integer(1)]);
    assert!(c.handle_frame_shared_at(&s.db, &s.registry, 0, &broken).is_none());
    assert_eq!(s.db.len(), 0);
    assert!(!c.in_subscribe_mode());
    assert!(!c.in_multi_mode());
}

#[test]
fn shared_access_keeps_the_books_of_a_transaction() {
    let mut s = server();
    let mut c = ClientHandler::new(1);
    let step = |c: &mut ClientHandler, s: &Server, parts: &[&str]| -> Option<RedisValue> {
        match c.handle_frame_shared_at(&s.db, &s.registry, 0, &request(parts)) {
            Some(Action::Reply(value)) => Some(value),
            Some(_) => panic!("a reply was expected"),
            None => None,
        }
    };
    assert_eq!(step(&mut c, &s, &["MULTI"]), Some(simple("OK")));
    assert!(c.in_multi_mode());
    assert_eq!(step(&mut c, &s, &["SET", "k", "1"]), Some(simple("QUEUED")));
    assert_eq!(step(&mut c, &s, &["GET", "k"]), Some(simple("QUEUED")));
    assert_eq!(step(&mut c, &s, &["MULTI"]), Some(error("ERR MULTI calls can not be nested")));
    assert_eq!(step(&mut c, &s, &["EXEC"]), None);
    assert_eq!(
        send(&mut s, &mut c, 0, &["EXEC"]),
        RedisValue::Array(vec![simple("OK"), bulk("1")])
    );
    assert_eq!(step(&mut c, &s, &["MULTI"]), Some(simple("OK")));
    assert_eq!(step(&mut c, &s, &["INCR", "k"]), Some(simple("QUEUED")));
    assert_eq!(step(&mut c, &s, &["DISCARD"]), Some(simple("OK")));
    assert!(!c.in_multi_mode());
    assert_eq!(step(&mut c, &s, &["GET", "k"]), Some(bulk("1")));
}

#[test]
fn shared_access_refuses_in_subscribe_mode() {
    let mut s = server();
    let mut c = ClientHandler::new(1);
    send(&mut s, &mut c, 0, &["SUBSCRIBE", "c"]);
    match c.handle_frame_shared_at(&s.db, &s.registry, 0, &request(&["GET", "k"])) {
        Some(Action::Reply(value)) => {
            assert_eq!(value, error("ERR Can't execute 'GET' in subscribed mode"))
        }
        _ => panic!("a reply was expected"),
    }
    match c.handle_frame_shared_at(&s.db, &s.registry, 0, &request(&["SET", "k", "v"])) {
        Some(Action::Reply(value)) => {
            assert_eq!(value, error("ERR Can't execute 'SET' in subscribed mode"))
        }
        _ => panic!("a reply was expected"),
    }
    match c.handle_frame_shared_at(&s.db, &s.registry, 0, &request(&["PING"])) {
        Some(Action::Reply(value)) => assert_eq!(value, bulks(&["pong", ""])),
        _ => panic!("a reply was expected"),
    }
    assert!(c.handle_frame_shared_at(&s.db, &s.registry, 0, &request(&["UNSUBSCRIBE", "c"])).is_none());
    match c.handle_frame_shared(&s.db, &s.registry, &request(&["PING"])) {
        Some(Action::Reply(value)) => assert_eq!(value, bulks(&["pong", ""])),
        _ => panic!("a reply was expected"),
    }
}

#[test]
fn classify_knows_the_commands() {
    assert_eq!(classify(b"PING"), Command::Ping);
    assert_eq!(classify(b"SET"), Command::SetValue);
    assert_eq!(classify(b"XREAD"), Command::Xread);
    assert_eq!(classify(b"DISCARD"), Command::Discard);
    assert_eq!(classify(b"ping"), Command::Unknown);
    assert_eq!(classify(b""), Command::Unknown);
    assert_eq!(classify(b"QUIT"), Command::Unknown);
}

#[test]
fn events_lead_to_actions() {
    let mut s = server();
    let mut c = ClientHandler::new(4);
    assert_eq!(c.id(), 4);
    let (tx, _rx) = unbounded_channel::<Vec<u8>>();
    s.registry.register(4, tx);
    match c.handle_event_at(&mut s.db, &mut s.registry, 0, Event::Outbound(Some(b("+raw\r\n")))) {
        Action::Forward(bytes) => assert_eq!(bytes, b("+raw\r\n")),
        _ => panic!("bytes to forward were expected"),
    }
    match c.handle_event_at(&mut s.db, &mut s.registry, 0, Event::Frame(request(&["SUBSCRIBE", "news"]))) {
        Action::Reply(value) => assert_eq!(
            value,
            RedisValue::Array(vec![bulk("subscribe"), bulk("news"), RedisValue::Integer(1)])
        ),
        _ => panic!("a reply was expected"),
    }
    assert_eq!(s.registry.subscription_count(4), 1);
    assert!(s.registry.sender(4).is_some());
    assert!(matches!(
        c.handle_event_at(&mut s.db, &mut s.registry, 0, Event::ReadFailed(ParseError::Disconnect)),
        Action::Close(CloseReason::ReadFailed(ParseError::Disconnect))
    ));
    assert_eq!(s.registry.subscription_count(4), 0);
    assert!(s.registry.sender(4).is_none());
}

#[test]
fn a_closed_mailbox_closes_the_connection() {
    let mut s = server();
    let mut c = ClientHandler::new(9);
    let (tx, _rx) = unbounded_channel::<Vec<u8>>();
    s.registry.register(9, tx);
    assert!(matches!(
        c.handle_event_at(&mut s.db, &mut s.registry, 0, Event::Outbound(None)),
        Action::Close(CloseReason::MailboxClosed)
    ));
    assert!(s.registry.sender(9).is_none());
}

#[test]
fn a_malformed_request_forgets_the_connection() {
    let mut s = server();
    let mut c = ClientHandler::new(9);
    let (tx, _rx) = unbounded_channel::<Vec<u8>>();
    s.registry.register(9, tx);
    s.registry.subscribe(9, b("news"));
    let frame = RedisValue::Array(vec![bulk("GET"), RedisValue::NilBulk]);
    assert!(matches!(
        c.handle_event_at(&mut s.db, &mut s.registry, 0, Event::Frame(frame)),
        Action::Close(CloseReason::NotAString)
    ));
    assert!(s.registry.sender(9).is_none());
    assert_eq!(s.registry.subscribers(b"news"), Vec::<u32>::new());
}

#[test]
fn handle_event_reads_the_clock() {
    let mut s = server();
    let mut c = ClientHandler::new(1);
    match c.handle_event(&mut s.db, &mut s.registry, Event::Frame(request(&["XADD", "s", "*", "a", "1"]))) {
        Action::Reply(RedisValue::BulkString(id)) => {
            let text = String::from_utf8(id).unwrap();
            let ms: u64 = text.split('-').next().unwrap().parse().unwrap();
            assert!(ms > 1_600_000_000_000);
            assert!(text.ends_with("-0"));
        }
        _ => panic!("an id was expected"),
    }
    match c.handle_event(&mut s.db, &mut s.registry, Event::Frame(request(&["SET", "k", "v", "PX", "100000"]))) {
        Action::Reply(value) => assert_eq!(value, simple("OK")),
        _ => panic!("a reply was expected"),
    }
    match c.handle_event(&mut s.db, &mut s.registry, Event::Frame(request(&["GET", "k"]))) {
        Action::Reply(value) => assert_eq!(value, bulk("v")),
        _ => panic!("a reply was expected"),
    }
    assert!(matches!(s.db.get(b"k"), Some(DbRecord::String(r)) if r.is_valid()));
}

#[test]
fn text_helpers() {
    assert_eq!(bytes_of("OK"), b("OK"));
    assert!(bytes_eq(b"abc", b"abc"));
    assert!(!bytes_eq(b"abc", b"abd"));
    assert!(!bytes_eq(b"abc", b"ab"));
    assert!(is_text(b"PING", "PING"));
    assert!(!is_text(b"ping", "PING"));
    assert_eq!(to_upper(b"get Key-1 {z}`a"), b("GET KEY-1 {Z}`A"));
    assert_eq!(find_byte(b"12-34-5", b'-'), 2);
    assert_eq!(find_byte(b"1234", b'-'), 4);
    assert_eq!(find_byte(b"", b'-'), 0);
}

#[test]
fn stream_entry_reply_shape() {
    let e = StreamEntry::new(StreamId { ms: 3, seq: 4 }, Some(vec![(b("a"), b("1"))]));
    assert_eq!(
        redis_core::stream_commands::entry_reply(&e).encode(),
        b("*2\r\n$3\r\n3-4\r\n*2\r\n$1\r\na\r\n$1\r\n1\r\n")
    );
}
