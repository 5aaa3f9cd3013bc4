use mini_redis::command::{parse, parse_at, Command, CommandError};
use mini_redis::resp::RedisValue;
use mini_redis::server::{can_respond, error_reply, execute, execute_at, fits, respond, respond_at};
use mini_redis::storage::{RangeOperation, Storage};

fn words(ws: &[&str]) -> Vec<Vec<u8>> {
    ws.iter().map(|w| w.as_bytes().to_vec()).collect()
}

fn run(s: &mut Storage, ws: &[&str], now: i128) -> Option<RedisValue> {
    let cmd = parse(&words(ws)).unwrap();
    assert!(fits(s, &cmd));
    execute_at(s, cmd, now)
}

#[test]
fn replies() {
    let mut s = Storage::new();
    assert!(matches!(run(&mut s, &["PING"], 0), Some(RedisValue::SimpleString(p)) if p == b"PONG"));
    assert!(matches!(run(&mut s, &["ECHO", "hi"], 0), Some(RedisValue::BulkString(p)) if p == b"hi"));
    assert!(matches!(run(&mut s, &["SET", "k", "v"], 0), Some(RedisValue::SimpleString(p)) if p == b"OK"));
    assert!(matches!(run(&mut s, &["GET", "k"], 0), Some(RedisValue::BulkString(p)) if p == b"v"));
    assert!(matches!(run(&mut s, &["GET", "nope"], 0), Some(RedisValue::Null)));
    assert!(matches!(run(&mut s, &["RPUSH", "l", "a", "b"], 0), Some(RedisValue::Integer(2))));
    assert!(matches!(run(&mut s, &["LLEN", "l"], 0), Some(RedisValue::Integer(2))));
    match run(&mut s, &["LRANGE", "l", "0", "-1"], 0) {
        Some(RedisValue::Array(items)) => assert_eq!(items.len(), 2),
        _ => panic!("expected an array"),
    }
    match run(&mut s, &["LRANGE", "k", "0", "-1"], 0) {
        Some(RedisValue::Error(m)) => {
            assert_eq!(m, "invalid argument: stored value does not match expected type")
        }
        _ => panic!("expected an error"),
    }
    assert!(run(&mut s, &["LPOP", "l"], 0).is_none());
    assert!(execute(&mut s, Command::NoOp).is_none());
}

#[test]
fn set_with_px_expires() {
    let mut s = Storage::new();
    let cmd = parse(&words(&["SET", "k", "v", "PX", "100"])).unwrap();
    let expires = match &cmd {
        Command::SetValue(op) => op.expiration.unwrap(),
        _ => panic!("expected set"),
    };
    execute_at(&mut s, cmd, 0);
    assert!(matches!(execute_at(&mut s, Command::Get(b"k".to_vec()), expires), Some(RedisValue::BulkString(_))));
    assert!(matches!(execute_at(&mut s, Command::Get(b"k".to_vec()), expires + 1), Some(RedisValue::Null)));
    let r = execute_at(
        &mut s,
        Command::Lrange(RangeOperation { key: b"k".to_vec(), start: 0, end: -1 }),
        0,
    );
    assert!(matches!(r, Some(RedisValue::Array(items)) if items.is_empty()));
}

#[test]
fn expiry_is_exact_to_the_nanosecond() {
    let mut s = Storage::new();
    let cmd = parse_at(&words(&["SET", "k", "v", "PX", "0"]), 5).unwrap();
    execute_at(&mut s, cmd, 5);
    assert!(matches!(execute_at(&mut s, Command::Get(b"k".to_vec()), 5), Some(RedisValue::BulkString(_))));
    assert!(matches!(execute_at(&mut s, Command::Get(b"k".to_vec()), 6), Some(RedisValue::Null)));
}

fn bulk(s: &str) -> RedisValue {
    RedisValue::BulkString(s.as_bytes().to_vec())
}

fn request(ws: &[&str]) -> RedisValue {
    RedisValue::Array(ws.iter().map(|w| bulk(w)).collect())
}

#[test]
fn respond_runs_requests_and_answers_refusals() {
    let mut s = Storage::new();
    let set = request(&["SET", "k", "v", "EX", "1"]);
    assert!(can_respond(&s, &set));
    assert!(matches!(respond_at(&mut s, &set, 0), Some(RedisValue::SimpleString(p)) if p == b"OK"));
    let get = RedisValue::SimpleString(b"GET k".to_vec());
    assert!(matches!(respond_at(&mut s, &get, 1_000_000_000), Some(RedisValue::BulkString(p)) if p == b"v"));
    assert!(matches!(respond_at(&mut s, &get, 1_000_000_001), Some(RedisValue::Null)));
    match respond_at(&mut s, &RedisValue::Integer(3), 0) {
        Some(RedisValue::Error(m)) => assert!(m.starts_with("invalid command: ")),
        _ => panic!("expected an error reply"),
    }
    match respond_at(&mut s, &request(&["FLY"]), 0) {
        Some(RedisValue::Error(m)) => assert_eq!(m, "invalid command: unknown command"),
        _ => panic!("expected an error reply"),
    }
    match respond_at(&mut s, &RedisValue::Array(vec![RedisValue::Null]), 0) {
        Some(RedisValue::Error(m)) => assert!(m.starts_with("invalid argument: ")),
        _ => panic!("expected an error reply"),
    }
    assert!(respond(&mut s, &request(&[])).is_none());
    assert!(matches!(respond(&mut s, &request(&["PING"])), Some(RedisValue::SimpleString(p)) if p == b"PONG"));
    let huge = request(&["SET", "k", "v", "EX", "9223372036854775807"]);
    assert!(!can_respond(&s, &huge));
}

#[test]
fn io_errors_reply_with_their_message() {
    let e = CommandError::IoError(std::io::Error::new(std::io::ErrorKind::Other, "boom"));
    match error_reply(&e) {
        RedisValue::Error(m) => assert_eq!(m, "io error: boom"),
        _ => panic!("expected an error reply"),
    }
}
