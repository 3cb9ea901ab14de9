use redis_core::client_handler::{Action, ClientHandler};
use redis_core::db::DB;
use redis_core::list_commands::Timeout;
use redis_core::parser::RedisParser;
use redis_core::registry::Registry;
use redis_core::values::RedisValue;
use tokio::sync::mpsc::unbounded_channel;

fn wire(parts: &[&str]) -> Vec<u8> {
    let mut out = format!("*{}\r\n", parts.len()).into_bytes();
    for part in parts {
        out.extend_from_slice(format!("${}\r\n{}\r\n", part.len(), part).as_bytes());
    }
    out
}

fn exchange(
    db: &mut DB,
    registry: &mut Registry,
    client: &mut ClientHandler,
    now: u64,
    parts: &[&str],
) -> Vec<u8> {
    let mut parser = RedisParser::new();
    parser.feed(&wire(parts));
    let frame = match parser.read_value() {
        Ok(Some(frame)) => frame,
        other => panic!("no frame: {:?}", other),
    };
    assert_eq!(frame.encode(), wire(parts));
    match client.handle_frame(db, registry, now, frame) {
        Action::Reply(value) => value.encode(),
        _ => panic!("a reply was expected"),
    }
}

#[test]
fn session_set_get_and_expiry() {
    let mut db = DB::new();
    let mut registry = Registry::new();
    let mut c = ClientHandler::new(1);
    assert_eq!(exchange(&mut db, &mut registry, &mut c, 1000, &["SET", "foo", "bar"]), b"+OK\r\n");
    assert_eq!(exchange(&mut db, &mut registry, &mut c, 1000, &["GET", "foo"]), b"$3\r\nbar\r\n");
    assert_eq!(
        exchange(&mut db, &mut registry, &mut c, 1000, &["SET", "foo", "baz", "PX", "50"]),
        b"+OK\r\n"
    );
    assert_eq!(exchange(&mut db, &mut registry, &mut c, 1080, &["GET", "foo"]), b"$-1\r\n");
}

#[test]
fn session_subscribe_and_publish() {
    let mut db = DB::new();
    let mut registry = Registry::new();
    let mut one = ClientHandler::new(1);
    let mut two = ClientHandler::new(2);
    let (tx1, mut rx1) = unbounded_channel::<Vec<u8>>();
    let (tx2, mut rx2) = unbounded_channel::<Vec<u8>>();
    registry.register(1, tx1);
    registry.register(2, tx2);
    assert_eq!(
        exchange(&mut db, &mut registry, &mut one, 0, &["SUBSCRIBE", "news"]),
        b"*3\r\n$9\r\nsubscribe\r\n$4\r\nnews\r\n:1\r\n"
    );
    assert_eq!(exchange(&mut db, &mut registry, &mut two, 0, &["PUBLISH", "news", "hello"]), b":1\r\n");
    assert_eq!(
        rx1.try_recv().ok(),
        Some(b"*3\r\n$7\r\nmessage\r\n$4\r\nnews\r\n$5\r\nhello\r\n".to_vec())
    );
    assert!(rx1.try_recv().is_err());
    assert!(rx2.try_recv().is_err());
}

#[test]
fn session_blpop_and_rpush() {
    let mut db = DB::new();
    let mut registry = Registry::new();
    let mut one = ClientHandler::new(1);
    let mut two = ClientHandler::new(2);
    let mut parser = RedisParser::new();
    parser.feed(&wire(&["BLPOP", "q", "0"]));
    let frame = parser.read_value().unwrap().unwrap();
    let (key, mut receiver) = match one.handle_frame(&mut db, &mut registry, 0, frame) {
        Action::AwaitList { key, receiver, timeout } => {
            assert_eq!(timeout, Timeout::Forever);
            (key, receiver)
        }
        _ => panic!("no reply was expected yet"),
    };
    assert!(receiver.try_recv().is_err());
    assert_eq!(exchange(&mut db, &mut registry, &mut two, 0, &["RPUSH", "q", "v"]), b":1\r\n");
    let arrived = receiver.try_recv().ok();
    assert_eq!(arrived, Some(b"v".to_vec()));
    assert_eq!(
        ClientHandler::finish_list_wait(&key, arrived).encode(),
        b"*2\r\n$1\r\nq\r\n$1\r\nv\r\n"
    );
    assert!(receiver.try_recv().is_err());
    assert_eq!(exchange(&mut db, &mut registry, &mut two, 0, &["LLEN", "q"]), b":0\r\n");
}

#[test]
fn session_blpop_times_out() {
    let mut db = DB::new();
    let mut registry = Registry::new();
    let mut one = ClientHandler::new(1);
    let request = RedisValue::Array(vec![
        RedisValue::BulkString(b"BLPOP".to_vec()),
        RedisValue::BulkString(b"q".to_vec()),
        RedisValue::BulkString(b"0.1".to_vec()),
    ]);
    match one.handle_frame(&mut db, &mut registry, 0, request) {
        Action::AwaitList { key, timeout, .. } => {
            assert_eq!(timeout, Timeout::Millis(100));
            assert_eq!(ClientHandler::finish_list_wait(&key, None).encode(), b"*-1\r\n");
        }
        _ => panic!("a wait was expected"),
    }
}

#[test]
fn session_xadd() {
    let mut db = DB::new();
    let mut registry = Registry::new();
    let mut c = ClientHandler::new(1);
    let now = 1_700_000_000_123u64;
    assert_eq!(
        exchange(&mut db, &mut registry, &mut c, now, &["XADD", "s", "*", "a", "1"]),
        b"$15\r\n1700000000123-0\r\n"
    );
    assert_eq!(
        exchange(&mut db, &mut registry, &mut c, now + 5, &["XADD", "s", "1700000000123-*", "b", "2"]),
        b"$15\r\n1700000000123-1\r\n"
    );
    let refused = exchange(&mut db, &mut registry, &mut c, now + 9, &["XADD", "s", "0-0", "c", "3"]);
    assert_eq!(refused[0], b'-');
    assert_eq!(
        exchange(&mut db, &mut registry, &mut c, now, &["XRANGE", "s", "-", "+"]),
        b"*2\r\n*2\r\n$15\r\n1700000000123-0\r\n*2\r\n$1\r\na\r\n$1\r\n1\r\n*2\r\n$15\r\n1700000000123-1\r\n*2\r\n$1\r\nb\r\n$1\r\n2\r\n"
    );
}

#[test]
fn session_multi_exec() {
    let mut db = DB::new();
    let mut registry = Registry::new();
    let mut c = ClientHandler::new(1);
    assert_eq!(exchange(&mut db, &mut registry, &mut c, 0, &["MULTI"]), b"+OK\r\n");
    assert_eq!(exchange(&mut db, &mut registry, &mut c, 0, &["SET", "k", "1"]), b"+QUEUED\r\n");
    assert_eq!(exchange(&mut db, &mut registry, &mut c, 0, &["INCR", "k"]), b"+QUEUED\r\n");
    assert_eq!(exchange(&mut db, &mut registry, &mut c, 0, &["EXEC"]), b"*2\r\n+OK\r\n:2\r\n");
    assert_eq!(exchange(&mut db, &mut registry, &mut c, 0, &["GET", "k"]), b"$1\r\n2\r\n");
}

#[test]
fn session_get_in_subscribe_mode() {
    let mut db = DB::new();
    let mut registry = Registry::new();
    let mut c = ClientHandler::new(1);
    exchange(&mut db, &mut registry, &mut c, 0, &["SUBSCRIBE", "news"]);
    assert_eq!(
        exchange(&mut db, &mut registry, &mut c, 0, &["GET", "foo"]),
        b"-ERR Can't execute 'GET' in subscribed mode\r\n"
    );
}
