use mini_redis::command::parse_errors;
use mini_redis::command::spec_parse::{parse_isize_token, CommandSyntax, OptionGroupParser};
use mini_redis::command::{
    normalize_command_args, parse, parse_at, ttl_fits, Command, CommandError, EchoParsed, GetParsed,
    LRangeParsed, PingParsed, ParsedTail, RPushParsed, SetExpiration, SetParsed,
};
use mini_redis::resp::RedisValue;
use mini_redis::storage::{PushKind, SetOperation};

fn bs(s: &str) -> Vec<u8> {
    s.as_bytes().to_vec()
}

fn words(ws: &[&str]) -> Vec<Vec<u8>> {
    ws.iter().map(|w| bs(w)).collect()
}

#[test]
fn ping_ignores_trailing_tokens() {
    let words = vec![bs("PING"), bs("extra")];
    parse(&words).unwrap();
    let tail = ParsedTail(&words[1..]);
    PingParsed::try_from_tail(tail).unwrap();
}

#[test]
fn set_with_ex() {
    let words = vec![bs("SET"), bs("k"), bs("v"), bs("EX"), bs("10")];
    parse(&words).unwrap();
}

#[test]
fn set_with_ex_expires_ten_seconds_after_now() {
    let words = vec![bs("SET"), bs("k"), bs("v"), bs("EX"), bs("10")];
    match parse_at(&words, 7) {
        Ok(Command::SetValue(op)) => {
            assert_eq!(op.key, b"k".to_vec());
            assert_eq!(op.value, b"v".to_vec());
            assert_eq!(op.expiration, Some(10_000_000_007));
        }
        _ => panic!("expected set"),
    }
    match parse(&words) {
        Ok(Command::SetValue(op)) => assert!(op.expiration.unwrap() >= 10_000_000_000),
        _ => panic!("expected set"),
    }
}

#[test]
fn set_bad_third_token() {
    let words = vec![bs("SET"), bs("k"), bs("v"), bs("NOPE")];
    match parse(&words) {
        Err(e) => {
            assert!(
                e.to_string().contains(parse_errors::INVALID_OPTION_TOKEN),
                "{}",
                e.to_string()
            );
        }
        Ok(_) => panic!("unexpected ok"),
    }
}

#[test]
fn derived_command_constants() {
    assert_eq!(PingParsed::COMMAND_NAME, "PING");
    assert_eq!(EchoParsed::COMMAND_NAME, "ECHO");
    assert_eq!(GetParsed::COMMAND_NAME, "GET");
}

fn arg_error(r: Result<Command, CommandError>) -> &'static str {
    match r {
        Err(CommandError::InvalidArgument(m)) => m,
        Err(e) => panic!("unexpected error {}", e.to_string()),
        Ok(_) => panic!("unexpected ok"),
    }
}

#[test]
fn empty_words_are_no_op() {
    assert!(matches!(parse(&[]), Ok(Command::NoOp)));
}

#[test]
fn unknown_command_word() {
    match parse(&words(&["FLY", "x"])) {
        Err(CommandError::InvalidCommand(m)) => assert_eq!(m, parse_errors::UNKNOWN_COMMAND_WORD),
        _ => panic!("expected an unknown command"),
    }
    // command words are matched exactly
    assert!(matches!(parse(&words(&["ping"])), Err(CommandError::InvalidCommand(_))));
}

#[test]
fn echo_takes_one_utf8_token() {
    match parse(&words(&["ECHO", "hi"])) {
        Ok(Command::Echo(m)) => assert_eq!(m, b"hi".to_vec()),
        _ => panic!("expected echo"),
    }
    assert_eq!(arg_error(parse(&words(&["ECHO"]))), parse_errors::WRONG_ARGUMENT_COUNT);
    assert_eq!(arg_error(parse(&words(&["ECHO", "a", "b"]))), parse_errors::WRONG_ARGUMENT_COUNT);
    let bad = vec![bs("ECHO"), vec![0xff, 0xfe]];
    assert_eq!(arg_error(parse(&bad)), parse_errors::INVALID_UTF8);
}

#[test]
fn set_shapes() {
    assert_eq!(arg_error(parse(&words(&["SET"]))), parse_errors::MISSING_ARGUMENT);
    assert_eq!(arg_error(parse(&words(&["SET", "k"]))), parse_errors::MISSING_ARGUMENT);
    match parse(&words(&["SET", "k", "v"])) {
        Ok(Command::SetValue(op)) => {
            assert_eq!(op.key, b"k".to_vec());
            assert_eq!(op.value, b"v".to_vec());
            assert_eq!(op.expiration, None);
        }
        _ => panic!("expected set"),
    }
    assert_eq!(
        arg_error(parse(&words(&["SET", "k", "v", "EX"]))),
        parse_errors::MISSING_OPTION_ARGUMENT
    );
    assert_eq!(
        arg_error(parse(&words(&["SET", "k", "v", "PX", "5", "extra"]))),
        parse_errors::EXTRA_TRAILING
    );
    assert_eq!(
        arg_error(parse(&words(&["SET", "k", "v", "EX", "ten"]))),
        parse_errors::INVALID_NUMBER
    );
    let bad = vec![bs("SET"), bs("k"), bs("v"), bs("PX"), vec![0xc0]];
    assert_eq!(arg_error(parse(&bad)), parse_errors::INVALID_UTF8);
}

#[test]
fn set_expiry_is_ttl_after_now() {
    let p = SetParsed::try_from_tail(ParsedTail(&words(&["k", "v", "EX", "10"]))).unwrap();
    let op = SetOperation::try_from_at(p, 5_000).unwrap();
    assert_eq!(op.expiration, Some(10_000_005_000));
    let p = SetParsed::try_from_tail(ParsedTail(&words(&["k", "v", "PX", "-3"]))).unwrap();
    let op = SetOperation::try_from_at(p, 5_000).unwrap();
    assert_eq!(op.expiration, Some(-2_995_000));
    let p = SetParsed::try_from_tail(ParsedTail(&words(&["k", "v", "PX", "250"]))).unwrap();
    let op = SetOperation::try_from(p).unwrap();
    assert!(op.expiration.unwrap() >= 250_000_000);
    let p = SetParsed::try_from_tail(ParsedTail(&words(&["k", "v", "PX", "9223372036854775807"])))
        .unwrap();
    let op = SetOperation::try_from(p).unwrap();
    assert!(op.expiration.unwrap() >= 9_223_372_036_854_775_807_000_000);
}

#[test]
fn ttl_fits_detects_overflowing_seconds() {
    assert!(ttl_fits(&words(&["SET", "k", "v", "EX", "10"])));
    assert!(!ttl_fits(&words(&["SET", "k", "v", "EX", "9223372036854775807"])));
    assert!(ttl_fits(&words(&["SET", "k", "v", "PX", "9223372036854775807"])));
    assert!(!ttl_fits(&words(&["SET", "k", "v", "PX", "-9223372036854775808"])));
    assert!(ttl_fits(&words(&["SET", "k", "v", "PX", "-9223372036854775807"])));
    assert!(ttl_fits(&words(&["GET", "k"])));
}

#[test]
fn option_group_positions() {
    let toks = words(&["EX", "7"]);
    let mut idx = 0usize;
    match SetExpiration::parse_option_group(&toks, &mut idx) {
        Ok(SetExpiration::Ex(b)) => assert_eq!(b, b"7".to_vec()),
        _ => panic!("expected EX"),
    }
    assert_eq!(idx, 2);
    let mut idx = 2usize;
    assert!(matches!(SetExpiration::parse_option_group(&toks, &mut idx), Ok(SetExpiration::Absent)));
    assert_eq!(idx, 2);
}

#[test]
fn push_and_range_shapes() {
    match parse(&words(&["LPUSH", "l", "a", "b"])) {
        Ok(Command::Push(op)) => {
            assert_eq!(op.kind, PushKind::LPush);
            assert_eq!(op.key, b"l".to_vec());
            assert_eq!(op.values, vec![b"a".to_vec(), b"b".to_vec()]);
        }
        _ => panic!("expected push"),
    }
    assert_eq!(arg_error(parse(&words(&["RPUSH", "l"]))), parse_errors::MISSING_ARGUMENT);
    let p = RPushParsed::try_from_tail(ParsedTail(&words(&["l", "x"]))).unwrap();
    assert_eq!(p.values, vec![b"x".to_vec()]);
    match parse(&words(&["LRANGE", "l", "0", "-1"])) {
        Ok(Command::Lrange(op)) => {
            assert_eq!(op.key, b"l".to_vec());
            assert_eq!(op.start, 0);
            assert_eq!(op.end, -1);
        }
        _ => panic!("expected lrange"),
    }
    assert_eq!(
        arg_error(parse(&words(&["LRANGE", "l", "0", "x"]))),
        parse_errors::INVALID_INTEGER
    );
    assert_eq!(arg_error(parse(&words(&["LRANGE", "l", "0"]))), parse_errors::WRONG_ARGUMENT_COUNT);
    let p = LRangeParsed::try_from_tail(ParsedTail(&words(&["l", "+3", "-2"]))).unwrap();
    assert_eq!((p.start, p.stop), (3, -2));
    assert!(matches!(parse(&words(&["LLEN", "l"])), Ok(Command::Llen(_))));
    assert!(matches!(parse(&words(&["LPOP", "l"])), Ok(Command::Lpop(_))));
    assert!(matches!(parse(&words(&["GET", "k"])), Ok(Command::Get(_))));
}

#[test]
fn isize_token_steps_only_on_success() {
    let toks = words(&["12", "x"]);
    let mut idx = 0usize;
    assert_eq!(parse_isize_token(&toks, &mut idx).unwrap(), 12);
    assert_eq!(idx, 1);
    match parse_isize_token(&toks, &mut idx) {
        Err(CommandError::InvalidArgument(m)) => assert_eq!(m, parse_errors::INVALID_INTEGER),
        _ => panic!("expected an integer error"),
    }
    assert_eq!(idx, 1);
    let mut idx = 2usize;
    match parse_isize_token(&toks, &mut idx) {
        Err(CommandError::InvalidArgument(m)) => assert_eq!(m, parse_errors::MISSING_ARGUMENT),
        _ => panic!("expected a missing argument"),
    }
}

#[test]
fn normalize_inline_line_and_arrays() {
    let line = RedisValue::SimpleString(b"  SET  k\tv \r ".to_vec());
    assert_eq!(normalize_command_args(&line).unwrap(), words(&["SET", "k", "v"]));
    let empty = RedisValue::SimpleString(b"   ".to_vec());
    assert!(normalize_command_args(&empty).unwrap().is_empty());
    let arr = RedisValue::Array(vec![
        RedisValue::BulkString(b"GET".to_vec()),
        RedisValue::SimpleString(b"k".to_vec()),
    ]);
    assert_eq!(normalize_command_args(&arr).unwrap(), words(&["GET", "k"]));
    let bad = RedisValue::Array(vec![RedisValue::Integer(1)]);
    match normalize_command_args(&bad) {
        Err(CommandError::InvalidArgument(m)) => {
            assert_eq!(m, parse_errors::RESPONSE_NOT_STRING_ELEMENTS)
        }
        _ => panic!("expected an element error"),
    }
    match normalize_command_args(&RedisValue::Null) {
        Err(CommandError::InvalidCommand(m)) => assert_eq!(m, parse_errors::TOP_LEVEL_SHAPE),
        _ => panic!("expected a shape error"),
    }
}

#[test]
fn error_messages() {
    let e = CommandError::InvalidArgument(parse_errors::MISSING_ARGUMENT);
    assert_eq!(e.to_string(), "invalid argument: missing required argument");
    let e = CommandError::InvalidCommand(parse_errors::UNKNOWN_COMMAND_WORD);
    assert_eq!(e.to_string(), "invalid command: unknown command");
    let e = CommandError::IoError(std::io::Error::new(std::io::ErrorKind::Other, "boom"));
    assert_eq!(e.to_string(), "io error: boom");
}
