use mini_redis::resp::{faults, RedisValue, RespError, RespParser};

fn decode(buf: &[u8]) -> Result<Option<(usize, RedisValue)>, RespError> {
    RespParser::default().decode(buf)
}

fn bulk(s: &str) -> RedisValue {
    RedisValue::BulkString(s.as_bytes().to_vec())
}

fn encode(v: RedisValue) -> Vec<u8> {
    let mut out = Vec::new();
    RespParser::default().encode(v, &mut out).unwrap();
    out
}

fn strings(v: &RedisValue) -> Vec<Vec<u8>> {
    match v {
        RedisValue::Array(items) => items
            .iter()
            .map(|i| match i {
                RedisValue::BulkString(b) | RedisValue::SimpleString(b) => b.clone(),
                _ => panic!("not a string"),
            })
            .collect(),
        _ => panic!("not an array"),
    }
}

#[test]
fn decodes_an_array_of_bulk_strings() {
    let buf = b"*2\r\n$3\r\nGET\r\n$1\r\nk\r\nrest";
    let (n, v) = decode(buf).unwrap().unwrap();
    assert_eq!(n, buf.len() - 4);
    assert_eq!(strings(&v), vec![b"GET".to_vec(), b"k".to_vec()]);
}

#[test]
fn incomplete_input_asks_for_more() {
    let full = b"*2\r\n$3\r\nGET\r\n$1\r\nk\r\n";
    for cut in 0..full.len() {
        assert!(decode(&full[..cut]).unwrap().is_none(), "prefix of length {cut}");
    }
}

#[test]
fn inline_command_is_one_simple_string() {
    let (n, v) = decode(b"PING extra\r\n").unwrap().unwrap();
    assert_eq!(n, 12);
    match v {
        RedisValue::SimpleString(s) => assert_eq!(s, b"PING extra".to_vec()),
        _ => panic!("expected a simple string"),
    }
}

#[test]
fn nested_values_and_nulls() {
    let buf = b"*4\r\n:-12\r\n+ok\r\n$-1\r\n*-1\r\n";
    let (n, v) = decode(buf).unwrap().unwrap();
    assert_eq!(n, buf.len());
    match v {
        RedisValue::Array(items) => {
            assert!(matches!(items[0], RedisValue::Integer(-12)));
            assert!(matches!(&items[1], RedisValue::SimpleString(s) if s == b"ok"));
            assert!(matches!(items[2], RedisValue::Null));
            assert!(matches!(items[3], RedisValue::Null));
        }
        _ => panic!("expected an array"),
    }
    let (_, v) = decode(b"*-1\r\n").unwrap().unwrap();
    assert!(matches!(v, RedisValue::Null));
}

#[test]
fn rejections() {
    assert!(matches!(decode(b"*x\r\n"), Err(RespError::InvalidInt)));
    assert!(matches!(decode(b"*-2\r\n"), Err(RespError::InvalidArray(_))));
    assert!(matches!(decode(b"*1\r\n$-5\r\n"), Err(RespError::InvalidBulkString(_))));
    assert!(matches!(decode(b"*1\r\n$2\r\nabcd\r\n"), Err(RespError::InvalidBulkString(_))));
    assert!(matches!(decode(b"*1\r\n!x\r\n"), Err(RespError::InternalError(_))));
    assert!(matches!(decode(b"a\rb\r\n"), Err(RespError::InvalidSimpleString(_))));
    assert!(matches!(decode(b"*1\r\n+a\nb\r\n"), Err(RespError::InvalidSimpleString(_))));
}

#[test]
fn unreadable_integer_lines_are_reported() {
    assert!(faults(b"*\r\n"));
    assert!(faults(b"*99999999999999999999\r\n"));
    assert!(!faults(b"*9223372036854775807\r\n"));
    assert!(!faults(b"*1\r\n"));
    assert!(!faults(b"PING\r\n"));
}

#[test]
fn encodes_each_kind() {
    assert_eq!(encode(RedisValue::SimpleString(b"OK".to_vec())), b"+OK\r\n".to_vec());
    assert_eq!(encode(bulk("hello")), b"$5\r\nhello\r\n".to_vec());
    assert_eq!(encode(RedisValue::Null), b"$-1\r\n".to_vec());
    assert_eq!(encode(RedisValue::Integer(42)), b":42\r\n".to_vec());
    assert_eq!(encode(RedisValue::Integer(-7)), b":-7\r\n".to_vec());
    assert_eq!(
        encode(RedisValue::Integer(i64::MIN)),
        b":-9223372036854775808\r\n".to_vec()
    );
    assert_eq!(encode(RedisValue::Error("bad".to_string())), b"-bad\r\n".to_vec());
    assert_eq!(
        encode(RedisValue::Array(vec![bulk("a"), RedisValue::Array(vec![])])),
        b"*2\r\n$1\r\na\r\n*0\r\n".to_vec()
    );
}

#[test]
fn encode_then_decode_gives_back_the_request() {
    let request = RedisValue::Array(vec![
        bulk("SET"),
        bulk("key with\r\nnewline"),
        RedisValue::SimpleString(b"v".to_vec()),
        RedisValue::Null,
        RedisValue::Array(vec![bulk("")]),
        RedisValue::Integer(-12),
    ]);
    let mut bytes = encode(request);
    let len = bytes.len();
    bytes.extend_from_slice(b"*1\r\n");
    let (n, v) = decode(&bytes).unwrap().unwrap();
    assert_eq!(n, len);
    match v {
        RedisValue::Array(items) => {
            assert_eq!(items.len(), 6);
            assert!(matches!(&items[1], RedisValue::BulkString(b) if b == b"key with\r\nnewline"));
            assert!(matches!(items[3], RedisValue::Null));
            assert!(matches!(&items[4], RedisValue::Array(inner) if inner.len() == 1));
            assert!(matches!(items[5], RedisValue::Integer(-12)));
        }
        _ => panic!("expected an array"),
    }
}

#[test]
fn decided_prefix_ignores_later_bytes() {
    let a = decode(b"*1\r\n$1\r\nx\r\n").unwrap().unwrap();
    let b = decode(b"*1\r\n$1\r\nx\r\n*3\r\nzz").unwrap().unwrap();
    assert_eq!(a.0, b.0);
    assert!(matches!(decode(b"*1\r\n!"), Err(RespError::InternalError(_))));
    assert!(matches!(decode(b"*1\r\n!more bytes"), Err(RespError::InternalError(_))));
}
