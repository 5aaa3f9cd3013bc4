//! Command-line parsing: RESP tokens after decoding, syntax specs, and dispatch.

pub mod parse_errors;
pub mod spec_parse;
pub mod syntax;

use vstd::prelude::*;
use vstd::utf8::valid_utf8;
use crate::byte_strings::{bytes_equal, copy_bytes, lemma_views_push, views};
use crate::clock::{clock_reading, now_nanos, NANOS_PER_MILLI};
use crate::numeric::{parse_i64, signed_from_str};
use crate::resp::{RedisValue, RedisValueView};
use crate::storage::{opt_int, PushKind, PushOperation, RangeOperation, SetOperation};
use spec_parse::{arg_error, is_utf8, spec_isize_token, CommandSyntax};
pub use syntax::{
    EchoParsed, ExpirationView, GetParsed, LLenParsed, LPopParsed, LPushParsed, LRangeParsed,
    PingParsed, RPushParsed, SetExpiration, SetParsed,
};
use syntax::{
    expiration_view, spec_echo, spec_exactly_one, spec_lrange, spec_push_tail, spec_set_tail,
};

verus! {

/// The tokens that follow the command word.
#[derive(Debug, Clone, Copy)]
pub struct ParsedTail<'a>(pub &'a [Vec<u8>]);

/// Why a request is not a command that can run.
#[derive(Debug)]
pub enum CommandError {
    InvalidCommand(&'static str),
    InvalidArgument(&'static str),
    IoError(std::io::Error),
}

/// `<std::io::Error as ToString>::to_string`: the error's message, as its `Display` writes it.
/// The message comes from the operating system; nothing is claimed of it.
#[verifier::external_body]
fn io_error_message(e: &std::io::Error) -> String {
    e.to_string()
}

/// The text of an error reply for errors whose message the library knows.
pub open spec fn error_text(e: CommandError) -> Option<Seq<char>> {
    match e {
        CommandError::InvalidCommand(m) => Some("invalid command: "@ + m@),
        CommandError::InvalidArgument(m) => Some("invalid argument: "@ + m@),
        CommandError::IoError(_) => None,
    }
}

impl CommandError {
    /// The error's message: its kind, a colon, and its detail.
    pub fn to_string(&self) -> (s: String)
        ensures
            error_text(*self) matches Some(t) ==> s@ == t,
            *self is IoError ==> "io error: "@.is_prefix_of(s@),
    {
        match self {
            CommandError::InvalidCommand(m) => {
                let mut s = String::from_str("invalid command: ");
                s.append(m);
                s
            },
            CommandError::InvalidArgument(m) => {
                let mut s = String::from_str("invalid argument: ");
                s.append(m);
                s
            },
            CommandError::IoError(e) => {
                let prefix = "io error: ";
                let mut s = String::from_str(prefix);
                let detail = io_error_message(e);
                s.append(detail.as_str());
                assert(s@.subrange(0, prefix@.len() as int) =~= prefix@);
                s
            },
        }
    }
}

// ------------------------------------------------------------------------------------------
// From parsed shapes to store operations.
// ------------------------------------------------------------------------------------------

/// A TTL token read as UTF-8, then as an `i64`, and scaled to milliseconds by `mult`.
pub open spec fn spec_parse_ttl(b: Seq<u8>, mult: int) -> Result<int, CommandError> {
    if !valid_utf8(b) {
        Err(arg_error(parse_errors::INVALID_UTF8))
    } else {
        match signed_from_str(b, i64::MIN as int, i64::MAX as int) {
            Some(v) => Ok(v * mult),
            None => Err(arg_error(parse_errors::INVALID_NUMBER)),
        }
    }
}

/// The time to live that an expiry group asks for, in milliseconds: `EX` counts seconds,
/// `PX` milliseconds.
pub open spec fn spec_ttl(x: ExpirationView) -> Result<Option<int>, CommandError> {
    match x {
        ExpirationView::Absent => Ok(None),
        ExpirationView::Ex(b) => match spec_parse_ttl(b, 1000) {
            Ok(t) => Ok(Some(t)),
            Err(e) => Err(e),
        },
        ExpirationView::Px(b) => match spec_parse_ttl(b, 1) {
            Ok(t) => Ok(Some(t)),
            Err(e) => Err(e),
        },
    }
}

/// The time to live fits an `i64` (scaling seconds to milliseconds does not overflow) and is
/// not `i64::MIN` milliseconds, which chrono's `TimeDelta` cannot hold.
pub open spec fn ttl_in_range(x: ExpirationView) -> bool {
    spec_ttl(x) matches Ok(Some(t)) ==> -i64::MAX <= t <= i64::MAX
}

/// Reads a TTL token as UTF-8 and then as an `i64`, scaled by `mult`.
fn parse_ttl_ms(b: &Vec<u8>, mult: i64) -> (r: Result<i64, CommandError>)
    requires
        spec_parse_ttl(b@, mult as int) matches Ok(t) ==> i64::MIN <= t <= i64::MAX,
    ensures
        match spec_parse_ttl(b@, mult as int) {
            Ok(t) => r matches Ok(x) && x == t,
            Err(e) => r matches Err(e2) && e2 == e,
        },
{
    if !is_utf8(b.as_slice()) {
        return Err(CommandError::InvalidArgument(parse_errors::INVALID_UTF8));
    }
    match parse_i64(b.as_slice()) {
        Some(v) => Ok(v * mult),
        None => Err(CommandError::InvalidArgument(parse_errors::INVALID_NUMBER)),
    }
}

fn expiration_ms(e: &SetExpiration) -> (r: Result<Option<i64>, CommandError>)
    requires
        ttl_in_range(expiration_view(*e)),
    ensures
        match spec_ttl(expiration_view(*e)) {
            Ok(None) => r matches Ok(None),
            Ok(Some(t)) => r matches Ok(Some(x)) && x == t,
            Err(err) => r matches Err(e2) && e2 == err,
        },
{
    match e {
        SetExpiration::Absent => Ok(None),
        SetExpiration::Ex(b) => {
            let ms = parse_ttl_ms(b, 1000)?;
            Ok(Some(ms))
        },
        SetExpiration::Px(b) => {
            let ms = parse_ttl_ms(b, 1)?;
            Ok(Some(ms))
        },
    }
}

/// When a SET made at `now` with a time to live of `t` milliseconds expires.
pub open spec fn expiry_at(now: int, t: int) -> int {
    now + t * NANOS_PER_MILLI
}

impl SetOperation {
    /// The operation for a parsed SET made at time `now`: it expires `now` plus the TTL.
    pub fn try_from_at(s: SetParsed, now: i128) -> (r: Result<SetOperation, CommandError>)
        requires
            ttl_in_range(expiration_view(s.expiration)),
            clock_reading(now as int),
        ensures
            match spec_ttl(expiration_view(s.expiration)) {
                Ok(ttl) => r matches Ok(op) && op.key@ == s.key@ && op.value@ == s.value@
                    && opt_int(op.expiration) == (match ttl {
                    Some(t) => Some(expiry_at(now as int, t)),
                    None => None,
                }),
                Err(e) => r matches Err(e2) && e2 == e,
            },
    {
        let expiration = match expiration_ms(&s.expiration)? {
            Some(ms) => {
                assert(-0x1_0000_0000_0000_0000_0000_0000 <= (ms as int) * NANOS_PER_MILLI
                    <= 0x1_0000_0000_0000_0000_0000_0000) by (nonlinear_arith)
                    requires
                        -i64::MAX <= ms <= i64::MAX,
                ;
                Some(now + (ms as i128) * NANOS_PER_MILLI)
            },
            None => None,
        };
        Ok(SetOperation { key: s.key, value: s.value, expiration })
    }

    /// The operation for a parsed SET, expiring the TTL after the current time.
    pub fn try_from(s: SetParsed) -> (r: Result<SetOperation, CommandError>)
        requires
            ttl_in_range(expiration_view(s.expiration)),
        ensures
            match spec_ttl(expiration_view(s.expiration)) {
                Ok(ttl) => r matches Ok(op) && op.key@ == s.key@ && op.value@ == s.value@
                    && match ttl {
                    Some(t) => op.expiration matches Some(x) && exists|now: int|
                        clock_reading(now) && x == #[trigger] expiry_at(now, t),
                    None => op.expiration is None,
                },
                Err(e) => r matches Err(e2) && e2 == e,
            },
    {
        let now = now_nanos();
        Self::try_from_at(s, now)
    }
}

impl From<LPushParsed> for PushOperation {
    fn from(p: LPushParsed) -> (r: PushOperation) {
        PushOperation { kind: PushKind::LPush, key: p.key, values: p.values }
    }
}

impl vstd::std_specs::convert::FromSpecImpl<LPushParsed> for PushOperation {
    open spec fn obeys_from_spec() -> bool {
        true
    }

    open spec fn from_spec(p: LPushParsed) -> PushOperation {
        PushOperation { kind: PushKind::LPush, key: p.key, values: p.values }
    }
}

impl From<RPushParsed> for PushOperation {
    fn from(p: RPushParsed) -> (r: PushOperation) {
        PushOperation { kind: PushKind::RPush, key: p.key, values: p.values }
    }
}

impl vstd::std_specs::convert::FromSpecImpl<RPushParsed> for PushOperation {
    open spec fn obeys_from_spec() -> bool {
        true
    }

    open spec fn from_spec(p: RPushParsed) -> PushOperation {
        PushOperation { kind: PushKind::RPush, key: p.key, values: p.values }
    }
}

impl From<LRangeParsed> for RangeOperation {
    fn from(p: LRangeParsed) -> (r: RangeOperation) {
        RangeOperation { key: p.key, start: p.start, end: p.stop }
    }
}

impl vstd::std_specs::convert::FromSpecImpl<LRangeParsed> for RangeOperation {
    open spec fn obeys_from_spec() -> bool {
        true
    }

    open spec fn from_spec(p: LRangeParsed) -> RangeOperation {
        RangeOperation { key: p.key, start: p.start, end: p.stop }
    }
}

// ------------------------------------------------------------------------------------------
// Commands.
// ------------------------------------------------------------------------------------------

/// A request, ready to run against the store.
pub enum Command {
    Ping,
    Echo(Vec<u8>),
    SetValue(SetOperation),
    Push(PushOperation),
    Get(Vec<u8>),
    Lrange(RangeOperation),
    Llen(Vec<u8>),
    Lpop(Vec<u8>),
    NoOp,
}

/// What a command holds. For `SetValue`, the expiry: a time in nanoseconds since the Unix epoch
/// for a [`Command`], a time to live in milliseconds for the outcome of [`spec_command`].
pub enum CommandView {
    Ping,
    Echo(Seq<u8>),
    SetValue(Seq<u8>, Seq<u8>, Option<int>),
    Push(PushKind, Seq<u8>, Seq<Seq<u8>>),
    Get(Seq<u8>),
    Lrange(Seq<u8>, int, int),
    Llen(Seq<u8>),
    Lpop(Seq<u8>),
    NoOp,
}

pub open spec fn command_view(c: Command) -> CommandView {
    match c {
        Command::Ping => CommandView::Ping,
        Command::Echo(m) => CommandView::Echo(m@),
        Command::SetValue(op) => CommandView::SetValue(
            op.key@,
            op.value@,
            match op.expiration {
                Some(t) => Some(t as int),
                None => None,
            },
        ),
        Command::Push(op) => CommandView::Push(op.kind, op.key@, views(op.values@)),
        Command::Get(k) => CommandView::Get(k@),
        Command::Lrange(op) => CommandView::Lrange(op.key@, op.start as int, op.end as int),
        Command::Llen(k) => CommandView::Llen(k@),
        Command::Lpop(k) => CommandView::Lpop(k@),
        Command::NoOp => CommandView::NoOp,
    }
}

pub open spec fn word_ping() -> Seq<u8> {
    seq![80u8, 73u8, 78u8, 71u8]
}

pub open spec fn word_echo() -> Seq<u8> {
    seq![69u8, 67u8, 72u8, 79u8]
}

pub open spec fn word_set() -> Seq<u8> {
    seq![83u8, 69u8, 84u8]
}

pub open spec fn word_lpush() -> Seq<u8> {
    seq![76u8, 80u8, 85u8, 83u8, 72u8]
}

pub open spec fn word_rpush() -> Seq<u8> {
    seq![82u8, 80u8, 85u8, 83u8, 72u8]
}

pub open spec fn word_get() -> Seq<u8> {
    seq![71u8, 69u8, 84u8]
}

pub open spec fn word_lrange() -> Seq<u8> {
    seq![76u8, 82u8, 65u8, 78u8, 71u8, 69u8]
}

pub open spec fn word_llen() -> Seq<u8> {
    seq![76u8, 76u8, 69u8, 78u8]
}

pub open spec fn word_lpop() -> Seq<u8> {
    seq![76u8, 80u8, 79u8, 80u8]
}

/// The command that a token list asks for. The command word is matched exactly (upper case);
/// an empty list asks for nothing.
pub open spec fn spec_command(words: Seq<Seq<u8>>) -> Result<CommandView, CommandError> {
    if words.len() == 0 {
        Ok(CommandView::NoOp)
    } else {
        let w = words[0];
        let t = words.skip(1);
        if w == word_ping() {
            Ok(CommandView::Ping)
        } else if w == word_echo() {
            match spec_echo(t) {
                Ok(m) => Ok(CommandView::Echo(m)),
                Err(e) => Err(e),
            }
        } else if w == word_set() {
            match spec_set_tail(t) {
                Ok((k, v, x)) => match spec_ttl(x) {
                    Ok(ttl) => Ok(CommandView::SetValue(k, v, ttl)),
                    Err(e) => Err(e),
                },
                Err(e) => Err(e),
            }
        } else if w == word_lpush() {
            match spec_push_tail(t) {
                Ok((k, vs)) => Ok(CommandView::Push(PushKind::LPush, k, vs)),
                Err(e) => Err(e),
            }
        } else if w == word_rpush() {
            match spec_push_tail(t) {
                Ok((k, vs)) => Ok(CommandView::Push(PushKind::RPush, k, vs)),
                Err(e) => Err(e),
            }
        } else if w == word_get() {
            match spec_exactly_one(t) {
                Ok(k) => Ok(CommandView::Get(k)),
                Err(e) => Err(e),
            }
        } else if w == word_lrange() {
            match spec_lrange(t) {
                Ok((k, a, b)) => Ok(CommandView::Lrange(k, a, b)),
                Err(e) => Err(e),
            }
        } else if w == word_llen() {
            match spec_exactly_one(t) {
                Ok(k) => Ok(CommandView::Llen(k)),
                Err(e) => Err(e),
            }
        } else if w == word_lpop() {
            match spec_exactly_one(t) {
                Ok(k) => Ok(CommandView::Lpop(k)),
                Err(e) => Err(e),
            }
        } else {
            Err(CommandError::InvalidCommand(parse_errors::UNKNOWN_COMMAND_WORD))
        }
    }
}

/// A SET in the token list asks for a TTL whose milliseconds fit an `i64` and are not `i64::MIN`.
pub open spec fn words_ttl_in_range(words: Seq<Seq<u8>>) -> bool {
    spec_command(words) matches Ok(CommandView::SetValue(_, _, Some(t))) ==> -i64::MAX <= t
        <= i64::MAX
}

/// The command that a token list asks for when it is parsed at `now`: a SET's time to live
/// becomes the time at which it expires.
pub open spec fn spec_command_at(words: Seq<Seq<u8>>, now: int) -> Result<CommandView, CommandError> {
    match spec_command(words) {
        Ok(CommandView::SetValue(k, v, Some(t))) => Ok(CommandView::SetValue(k, v, Some(expiry_at(now, t)))),
        other => other,
    }
}

pub open spec fn command_result_view(r: Result<Command, CommandError>) -> Result<CommandView, CommandError> {
    match r {
        Ok(c) => Ok(command_view(c)),
        Err(e) => Err(e),
    }
}

fn word_is(w: &[u8], lit: &[u8]) -> (r: bool)
    ensures
        r == (w@ == lit@),
{
    bytes_equal(w, lit)
}

/// Parses a token list at time `now` into a command: the first token names the command, the
/// rest are its arguments.
pub fn parse_at(words: &[Vec<u8>], now: i128) -> (r: Result<Command, CommandError>)
    requires
        words_ttl_in_range(views(words@)),
        clock_reading(now as int),
    ensures
        command_result_view(r) == spec_command_at(views(words@), now as int),
{
    if words.len() == 0 {
        return Ok(Command::NoOp);
    }
    let first = words[0].as_slice();
    let tail_slice = vstd::slice::slice_subrange(words, 1, words.len());
    assert(views(tail_slice@) =~= views(words@).skip(1));
    assert(first@ == views(words@)[0]);
    let tail = ParsedTail(tail_slice);
    let ping: [u8; 4] = [80u8, 73u8, 78u8, 71u8];
    let echo: [u8; 4] = [69u8, 67u8, 72u8, 79u8];
    let set: [u8; 3] = [83u8, 69u8, 84u8];
    let lpush: [u8; 5] = [76u8, 80u8, 85u8, 83u8, 72u8];
    let rpush: [u8; 5] = [82u8, 80u8, 85u8, 83u8, 72u8];
    let get: [u8; 3] = [71u8, 69u8, 84u8];
    let lrange: [u8; 6] = [76u8, 82u8, 65u8, 78u8, 71u8, 69u8];
    let llen: [u8; 4] = [76u8, 76u8, 69u8, 78u8];
    let lpop: [u8; 4] = [76u8, 80u8, 79u8, 80u8];
    let ping_s = vstd::array::array_as_slice(&ping);
    let echo_s = vstd::array::array_as_slice(&echo);
    let set_s = vstd::array::array_as_slice(&set);
    let lpush_s = vstd::array::array_as_slice(&lpush);
    let rpush_s = vstd::array::array_as_slice(&rpush);
    let get_s = vstd::array::array_as_slice(&get);
    let lrange_s = vstd::array::array_as_slice(&lrange);
    let llen_s = vstd::array::array_as_slice(&llen);
    let lpop_s = vstd::array::array_as_slice(&lpop);
    assert(ping_s@ =~= word_ping());
    assert(echo_s@ =~= word_echo());
    assert(set_s@ =~= word_set());
    assert(lpush_s@ =~= word_lpush());
    assert(rpush_s@ =~= word_rpush());
    assert(get_s@ =~= word_get());
    assert(lrange_s@ =~= word_lrange());
    assert(llen_s@ =~= word_llen());
    assert(lpop_s@ =~= word_lpop());
    if word_is(first, ping_s) {
        PingParsed::try_from_tail(tail)?;
        Ok(Command::Ping)
    } else if word_is(first, echo_s) {
        let p = EchoParsed::try_from_tail(tail)?;
        Ok(Command::Echo(p.message))
    } else if word_is(first, set_s) {
        let p = SetParsed::try_from_tail(tail)?;
        let op = SetOperation::try_from_at(p, now)?;
        Ok(Command::SetValue(op))
    } else if word_is(first, lpush_s) {
        let p = LPushParsed::try_from_tail(tail)?;
        Ok(Command::Push(PushOperation::from(p)))
    } else if word_is(first, rpush_s) {
        let p = RPushParsed::try_from_tail(tail)?;
        Ok(Command::Push(PushOperation::from(p)))
    } else if word_is(first, get_s) {
        let p = GetParsed::try_from_tail(tail)?;
        Ok(Command::Get(p.key))
    } else if word_is(first, lrange_s) {
        let p = LRangeParsed::try_from_tail(tail)?;
        Ok(Command::Lrange(RangeOperation::from(p)))
    } else if word_is(first, llen_s) {
        let p = LLenParsed::try_from_tail(tail)?;
        Ok(Command::Llen(p.key))
    } else if word_is(first, lpop_s) {
        let p = LPopParsed::try_from_tail(tail)?;
        Ok(Command::Lpop(p.key))
    } else {
        Err(CommandError::InvalidCommand(parse_errors::UNKNOWN_COMMAND_WORD))
    }
}

/// Parses a token list into a command at the current time: a SET's time to live counts from
/// a reading of the clock.
pub fn parse(words: &[Vec<u8>]) -> (r: Result<Command, CommandError>)
    requires
        words_ttl_in_range(views(words@)),
    ensures
        exists|now: int|
            clock_reading(now) && command_result_view(r) == #[trigger] spec_command_at(
                views(words@),
                now,
            ),
{
    let now = now_nanos();
    parse_at(words, now)
}

fn ttl_value_fits(b: &Vec<u8>, mult: i64) -> (r: bool)
    ensures
        r == (spec_parse_ttl(b@, mult as int) matches Ok(t) ==> -i64::MAX <= t <= i64::MAX),
{
    if !is_utf8(b.as_slice()) {
        return true;
    }
    match parse_i64(b.as_slice()) {
        Some(v) => {
            assert(-0x4000_0000_0000_0000_0000_0000_0000_0000 <= (v as int) * (mult as int)
                <= 0x4000_0000_0000_0000_0000_0000_0000_0000) by (nonlinear_arith)
                requires
                    i64::MIN <= v <= i64::MAX,
                    i64::MIN <= mult <= i64::MAX,
            ;
            let t: i128 = (v as i128) * (mult as i128);
            -(i64::MAX as i128) <= t && t <= (i64::MAX as i128)
        },
        None => true,
    }
}

/// Whether `parse` can take these tokens: a SET's TTL, counted in milliseconds, fits an `i64`
/// and is not `i64::MIN`.
pub fn ttl_fits(words: &[Vec<u8>]) -> (r: bool)
    ensures
        r == words_ttl_in_range(views(words@)),
{
    if words.len() == 0 {
        return true;
    }
    let first = words[0].as_slice();
    assert(first@ == views(words@)[0]);
    let set: [u8; 3] = [83u8, 69u8, 84u8];
    let set_s = vstd::array::array_as_slice(&set);
    assert(set_s@ =~= word_set());
    if !word_is(first, set_s) {
        return true;
    }
    assert(word_ping() != word_set());
    assert(word_echo() != word_set());
    let tail_slice = vstd::slice::slice_subrange(words, 1, words.len());
    assert(views(tail_slice@) =~= views(words@).skip(1));
    match SetParsed::try_from_tail(ParsedTail(tail_slice)) {
        Err(_) => true,
        Ok(p) => match &p.expiration {
            SetExpiration::Absent => true,
            SetExpiration::Ex(b) => ttl_value_fits(b, 1000),
            SetExpiration::Px(b) => ttl_value_fits(b, 1),
        },
    }
}

// ------------------------------------------------------------------------------------------
// From a decoded value to tokens.
// ------------------------------------------------------------------------------------------

/// The bytes `str::split_ascii_whitespace` separates on: space, tab, LF, FF and CR.
pub open spec fn is_ascii_whitespace(b: u8) -> bool {
    b == 32 || b == 9 || b == 10 || b == 12 || b == 13
}

/// The maximal runs of non-whitespace bytes of `line`, in order, built up byte by byte: a
/// whitespace byte closes the current run, any other byte extends it or starts a new one.
pub open spec fn words_of(line: Seq<u8>) -> Seq<Seq<u8>>
    decreases line.len(),
{
    if line.len() == 0 {
        Seq::empty()
    } else {
        let prev = words_of(line.drop_last());
        let b = line.last();
        if is_ascii_whitespace(b) {
            prev
        } else if line.len() >= 2 && !is_ascii_whitespace(line[line.len() - 2]) && prev.len() > 0 {
            prev.update(prev.len() - 1, prev.last().push(b))
        } else {
            prev.push(seq![b])
        }
    }
}

/// The payload of a string value.
pub open spec fn string_payload(v: RedisValueView) -> Seq<u8> {
    match v {
        RedisValueView::BulkString(b) => b,
        RedisValueView::SimpleString(s) => s,
        _ => Seq::empty(),
    }
}

/// The tokens of a decoded request: the strings of an array, or the words of an inline line.
pub open spec fn spec_normalize(v: RedisValueView) -> Result<Seq<Seq<u8>>, CommandError> {
    match v {
        RedisValueView::Array(items) => if forall|i: int|
            0 <= i < items.len() ==> (#[trigger] items[i] is BulkString || items[i] is SimpleString) {
            Ok(Seq::new(items.len(), |i: int| string_payload(items[i])))
        } else {
            Err(arg_error(parse_errors::RESPONSE_NOT_STRING_ELEMENTS))
        },
        RedisValueView::SimpleString(line) => Ok(words_of(line)),
        _ => Err(CommandError::InvalidCommand(parse_errors::TOP_LEVEL_SHAPE)),
    }
}

fn is_space(b: u8) -> (r: bool)
    ensures
        r == is_ascii_whitespace(b),
{
    b == 32 || b == 9 || b == 10 || b == 12 || b == 13
}

fn split_line(line: &[u8]) -> (r: Vec<Vec<u8>>)
    ensures
        views(r@) == words_of(line@),
{
    let mut out: Vec<Vec<u8>> = Vec::new();
    let mut token_start: Option<usize> = None;
    let mut i: usize = 0;
    while i < line.len()
        invariant
            i <= line@.len(),
            match token_start {
                Some(s) => {
                    &&& s < i
                    &&& views(out@).push(line@.subrange(s as int, i as int)) == words_of(line@.take(i as int))
                    &&& !is_ascii_whitespace(line@[i - 1])
                },
                None => {
                    &&& views(out@) == words_of(line@.take(i as int))
                    &&& (i == 0 || is_ascii_whitespace(line@[i - 1]))
                },
            },
        decreases line@.len() - i,
    {
        let b = line[i];
        let ghost prefix = line@.take(i + 1);
        assert(prefix.drop_last() =~= line@.take(i as int));
        assert(prefix.last() == b);
        if is_space(b) {
            if let Some(s) = token_start {
                let w = copy_bytes(vstd::slice::slice_subrange(line, s, i));
                proof {
                    lemma_views_push(out@, w);
                }
                out.push(w);
                token_start = None;
            }
        } else if token_start.is_none() {
            proof {
                if i > 0 {
                    assert(prefix[i - 1] == line@[i - 1]);
                }
                assert(line@.subrange(i as int, i + 1) =~= seq![b]);
            }
            token_start = Some(i);
        } else {
            proof {
                let s = token_start->0;
                assert(prefix[i - 1] == line@[i - 1]);
                let prev = words_of(line@.take(i as int));
                assert(prev.len() > 0);
                assert(line@.subrange(s as int, i + 1) =~= line@.subrange(s as int, i as int).push(b));
                assert(views(out@).push(line@.subrange(s as int, i + 1)) =~= prev.update(
                    prev.len() - 1,
                    prev.last().push(b),
                ));
            }
        }
        i += 1;
    }
    assert(line@.take(i as int) =~= line@);
    if let Some(s) = token_start {
        let w = copy_bytes(vstd::slice::slice_subrange(line, s, line.len()));
        proof {
            lemma_views_push(out@, w);
        }
        out.push(w);
    }
    out
}

/// The tokens of a decoded request: an array's string elements, or the whitespace-separated
/// words of an inline command line.
pub fn normalize_command_args(value: &RedisValue) -> (r: Result<Vec<Vec<u8>>, CommandError>)
    ensures
        match spec_normalize(value@) {
            Ok(ws) => r matches Ok(v) && views(v@) == ws,
            Err(e) => r matches Err(e2) && e2 == e,
        },
{
    match value {
        RedisValue::Array(items) => {
            let ghost vs = value@->Array_0;
            let mut out: Vec<Vec<u8>> = Vec::new();
            let mut i: usize = 0;
            while i < items.len()
                invariant
                    *value == RedisValue::Array(*items),
                    vs == value@->Array_0,
                    vs.len() == items@.len(),
                    forall|j: int| 0 <= j < vs.len() ==> #[trigger] vs[j] == items@[j]@,
                    i <= items@.len(),
                    forall|j: int| 0 <= j < i ==> (#[trigger] vs[j] is BulkString || vs[j] is SimpleString),
                    views(out@) =~= Seq::new(i as nat, |j: int| string_payload(vs[j])),
                decreases items@.len() - i,
            {
                let w = match &items[i] {
                    RedisValue::BulkString(b) => copy_bytes(b.as_slice()),
                    RedisValue::SimpleString(s) => copy_bytes(s.as_slice()),
                    _ => {
                        assert(!(vs[i as int] is BulkString || vs[i as int] is SimpleString));
                        return Err(
                            CommandError::InvalidArgument(parse_errors::RESPONSE_NOT_STRING_ELEMENTS),
                        );
                    },
                };
                proof {
                    lemma_views_push(out@, w);
                }
                out.push(w);
                i += 1;
            }
            Ok(out)
        },
        RedisValue::SimpleString(line) => Ok(split_line(line.as_slice())),
        _ => Err(CommandError::InvalidCommand(parse_errors::TOP_LEVEL_SHAPE)),
    }
}

/// Each word of an inline line is a non-empty run of bytes none of which is whitespace.
pub proof fn law_words_are_nonempty_runs(line: Seq<u8>)
    ensures
        forall|i: int|
            0 <= i < words_of(line).len() ==> (#[trigger] words_of(line)[i]).len() > 0 && forall|
                j: int,
            |
                0 <= j < words_of(line)[i].len() ==> !is_ascii_whitespace(words_of(line)[i][j]),
    decreases line.len(),
{
    if line.len() > 0 {
        law_words_are_nonempty_runs(line.drop_last());
        let prev = words_of(line.drop_last());
        let b = line.last();
        if !is_ascii_whitespace(b) {
            if line.len() >= 2 && !is_ascii_whitespace(line[line.len() - 2]) && prev.len() > 0 {
                let w = prev.last().push(b);
                assert forall|j: int| 0 <= j < w.len() implies !is_ascii_whitespace(w[j]) by {
                    if j < prev.last().len() {
                        assert(w[j] == prev[prev.len() - 1][j]);
                    }
                }
            }
        }
    }
}

/// PING accepts any tokens after it.
pub proof fn law_ping_ignores_trailing_tokens(rest: Seq<Seq<u8>>)
    ensures
        spec_command(seq![word_ping()] + rest) == Ok::<CommandView, CommandError>(CommandView::Ping),
{
    assert((seq![word_ping()] + rest)[0] == word_ping());
}

/// A command word that is none of the known ones is refused as an unknown command, whatever
/// follows it.
pub proof fn law_unknown_word_is_refused(words: Seq<Seq<u8>>)
    requires
        words.len() > 0,
        words[0] != word_ping() && words[0] != word_echo() && words[0] != word_set()
            && words[0] != word_lpush() && words[0] != word_rpush() && words[0] != word_get()
            && words[0] != word_lrange() && words[0] != word_llen() && words[0] != word_lpop(),
    ensures
        spec_command(words) == Err::<CommandView, CommandError>(
            CommandError::InvalidCommand(parse_errors::UNKNOWN_COMMAND_WORD),
        ),
{
}

/// The words of an inline line, put back together, are exactly its non-whitespace bytes in
/// order: splitting loses only whitespace.
pub proof fn law_words_keep_every_other_byte(line: Seq<u8>)
    ensures
        words_of(line).flatten() == line.filter(|b: u8| !is_ascii_whitespace(b)),
    decreases line.len(),
{
    reveal(Seq::filter);
    if line.len() > 0 {
        law_words_keep_every_other_byte(line.drop_last());
        let prev = words_of(line.drop_last());
        let b = line.last();
        if !is_ascii_whitespace(b) {
            if line.len() >= 2 && !is_ascii_whitespace(line[line.len() - 2]) && prev.len() > 0 {
                let n = prev.len() - 1;
                assert(prev.update(n, prev.last().push(b)) =~= prev.drop_last().push(
                    prev.last().push(b),
                ));
                assert(prev.drop_last().push(prev.last()) =~= prev);
                prev.drop_last().lemma_flatten_push(prev.last());
                prev.drop_last().lemma_flatten_push(prev.last().push(b));
                assert(prev.drop_last().flatten() + prev.last().push(b) =~= (prev.drop_last().flatten()
                    + prev.last()).push(b));
            } else {
                prev.lemma_flatten_push(seq![b]);
                assert(prev.flatten() + seq![b] =~= prev.flatten().push(b));
            }
        }
    }
}


/// `RPUSH key v1..vn` parses to a push at the tail, and `LPUSH key v1..vn` to a push at the
/// head, of every token after the key, in order.
pub proof fn law_push_words(k: Seq<u8>, vs: Seq<Seq<u8>>)
    requires
        vs.len() >= 1,
    ensures
        spec_command(seq![seq![82u8, 80u8, 85u8, 83u8, 72u8], k] + vs) == Ok::<CommandView, CommandError>(
            CommandView::Push(PushKind::RPush, k, vs),
        ),
        spec_command(seq![seq![76u8, 80u8, 85u8, 83u8, 72u8], k] + vs) == Ok::<CommandView, CommandError>(
            CommandView::Push(PushKind::LPush, k, vs),
        ),
{
    assert(word_rpush() =~= seq![82u8, 80u8, 85u8, 83u8, 72u8]);
    assert(word_lpush() =~= seq![76u8, 80u8, 85u8, 83u8, 72u8]);
    let r = seq![word_rpush(), k] + vs;
    let l = seq![word_lpush(), k] + vs;
    assert(r[0] == word_rpush());
    assert(l[0] == word_lpush());
    assert(r.skip(1) =~= seq![k] + vs);
    assert(l.skip(1) =~= seq![k] + vs);
    assert((seq![k] + vs).skip(1) =~= vs);
    assert((seq![k] + vs)[0] == k);
    assert(word_rpush()[0] != word_lpush()[0]);
}

/// A non-empty line none of whose bytes is a space, tab, LF, FF or CR is a single word: only
/// those bytes separate the words of an inline command.
pub proof fn law_line_without_whitespace_is_one_word(line: Seq<u8>)
    requires
        line.len() > 0,
        forall|i: int|
            0 <= i < line.len() ==> #[trigger] line[i] != 32u8 && line[i] != 9u8 && line[i]
                != 10u8 && line[i] != 12u8 && line[i] != 13u8,
    ensures
        words_of(line) == seq![line],
    decreases line.len(),
{
    let b = line.last();
    assert(b == line[line.len() - 1]);
    if line.len() == 1 {
        assert(line.drop_last() =~= Seq::<u8>::empty());
        assert(words_of(Seq::<u8>::empty()) == Seq::<Seq<u8>>::empty());
        assert(seq![b] =~= line);
    } else {
        let d = line.drop_last();
        assert forall|i: int| 0 <= i < d.len() implies #[trigger] d[i] != 32u8 && d[i] != 9u8
            && d[i] != 10u8 && d[i] != 12u8 && d[i] != 13u8 by {
            assert(d[i] == line[i]);
        }
        law_line_without_whitespace_is_one_word(d);
        assert(!is_ascii_whitespace(line[line.len() - 2]));
        assert(!is_ascii_whitespace(b));
        assert(d.push(b) =~= line);
        let prev = words_of(d);
        assert(prev.update(prev.len() - 1, prev.last().push(b)) =~= seq![line]);
    }
}


/// A word that follows whitespace (or starts the line) is added whole as the next word.
proof fn lemma_word_after_break(p: Seq<u8>, b: Seq<u8>)
    requires
        b.len() > 0,
        p.len() == 0 || is_ascii_whitespace(p.last()),
        forall|i: int| 0 <= i < b.len() ==> !is_ascii_whitespace(#[trigger] b[i]),
    ensures
        words_of(p + b) == words_of(p).push(b),
    decreases b.len(),
{
    let line = p + b;
    let last = b.last();
    assert(line.last() == last);
    if b.len() == 1 {
        assert(line.drop_last() =~= p);
        assert(seq![last] =~= b);
        if line.len() >= 2 {
            assert(line[line.len() - 2] == p.last());
        }
    } else {
        let d = b.drop_last();
        assert(line.drop_last() =~= p + d);
        assert forall|i: int| 0 <= i < d.len() implies !is_ascii_whitespace(#[trigger] d[i]) by {
            assert(d[i] == b[i]);
        }
        lemma_word_after_break(p, d);
        assert(line[line.len() - 2] == b[b.len() - 2]);
        let prev = words_of(p).push(d);
        assert(d.push(last) =~= b);
        assert(prev.update(prev.len() - 1, prev.last().push(last)) =~= words_of(p).push(b));
    }
}

/// Two words with one space, tab, LF, FF or CR between them are read as exactly those two
/// words.
pub proof fn law_whitespace_separates_words(a: Seq<u8>, c: u8, b: Seq<u8>)
    requires
        a.len() > 0,
        b.len() > 0,
        c == 32u8 || c == 9u8 || c == 10u8 || c == 12u8 || c == 13u8,
        forall|i: int|
            0 <= i < a.len() ==> #[trigger] a[i] != 32u8 && a[i] != 9u8 && a[i] != 10u8 && a[i]
                != 12u8 && a[i] != 13u8,
        forall|i: int|
            0 <= i < b.len() ==> #[trigger] b[i] != 32u8 && b[i] != 9u8 && b[i] != 10u8 && b[i]
                != 12u8 && b[i] != 13u8,
    ensures
        words_of(a + seq![c] + b) == seq![a, b],
{
    law_line_without_whitespace_is_one_word(a);
    let p = a + seq![c];
    assert(p.drop_last() =~= a);
    assert(p.last() == c);
    assert(words_of(p) == words_of(a));
    assert forall|i: int| 0 <= i < b.len() implies !is_ascii_whitespace(#[trigger] b[i]) by {}
    lemma_word_after_break(p, b);
    assert(seq![a].push(b) =~= seq![a, b]);
}


/// `GET key`, `LLEN key` and `LPOP key` name the key they act on, and `ECHO message` echoes
/// a UTF-8 message; `PING` is PING.
pub proof fn law_single_argument_words(k: Seq<u8>)
    ensures
        spec_command(seq![seq![71u8, 69u8, 84u8], k]) == Ok::<CommandView, CommandError>(
            CommandView::Get(k),
        ),
        spec_command(seq![seq![76u8, 76u8, 69u8, 78u8], k]) == Ok::<CommandView, CommandError>(
            CommandView::Llen(k),
        ),
        spec_command(seq![seq![76u8, 80u8, 79u8, 80u8], k]) == Ok::<CommandView, CommandError>(
            CommandView::Lpop(k),
        ),
        valid_utf8(k) ==> spec_command(seq![seq![69u8, 67u8, 72u8, 79u8], k]) == Ok::<
            CommandView,
            CommandError,
        >(CommandView::Echo(k)),
        spec_command(seq![seq![80u8, 73u8, 78u8, 71u8]]) == Ok::<CommandView, CommandError>(
            CommandView::Ping,
        ),
{
    assert(word_get() =~= seq![71u8, 69u8, 84u8]);
    assert(word_llen() =~= seq![76u8, 76u8, 69u8, 78u8]);
    assert(word_lpop() =~= seq![76u8, 80u8, 79u8, 80u8]);
    assert(word_echo() =~= seq![69u8, 67u8, 72u8, 79u8]);
    assert(word_ping() =~= seq![80u8, 73u8, 78u8, 71u8]);
    assert(word_get()[0] != word_set()[0]);
    assert(word_llen()[1] != word_lpop()[1]);
    assert(word_llen()[0] != word_ping()[0] && word_llen()[0] != word_echo()[0]);
    assert(word_lpop()[0] != word_ping()[0] && word_lpop()[0] != word_echo()[0]);
    assert(word_echo()[0] != word_ping()[0]);
    assert(seq![seq![71u8, 69u8, 84u8], k].skip(1) =~= seq![k]);
    assert(seq![seq![76u8, 76u8, 69u8, 78u8], k].skip(1) =~= seq![k]);
    assert(seq![seq![76u8, 80u8, 79u8, 80u8], k].skip(1) =~= seq![k]);
    assert(seq![seq![69u8, 67u8, 72u8, 79u8], k].skip(1) =~= seq![k]);
}

/// `LRANGE key start stop` reads the range between the two integers it is given.
pub proof fn law_lrange_words(k: Seq<u8>, a: Seq<u8>, b: Seq<u8>)
    ensures
        spec_command(seq![seq![76u8, 82u8, 65u8, 78u8, 71u8, 69u8], k, a, b]) == (match (
            spec_isize_token(a),
            spec_isize_token(b),
        ) {
            (Ok(x), Ok(y)) => Ok::<CommandView, CommandError>(CommandView::Lrange(k, x, y)),
            (Err(e), _) => Err(e),
            (Ok(_), Err(e)) => Err(e),
        }),
{
    assert(word_lrange() =~= seq![76u8, 82u8, 65u8, 78u8, 71u8, 69u8]);
    let ws = seq![word_lrange(), k, a, b];
    assert(ws.skip(1) =~= seq![k, a, b]);
}

} // verus!
