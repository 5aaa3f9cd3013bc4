//! What the server answers to a command, and how it changes the store.

use vstd::prelude::*;
use crate::byte_strings::{copy_bytes, views};
use crate::clock::{clock_reading, now_nanos};
use crate::command::{
    command_view, error_text, expiry_at, normalize_command_args, parse_at, spec_command, spec_command_at,
    spec_normalize, spec_parse_ttl, ttl_fits, word_get, word_set, words_ttl_in_range, Command,
    CommandError, CommandView,
};
use crate::command::syntax::{keyword_ex, keyword_px};
use crate::resp::{RedisValue, RedisValueView};
use crate::storage::{
    can_push, get_at, get_range_at, llen_at, push, push_fits, spec_get, spec_get_range,
    expired, list_before_push, spec_llen, spec_push, spec_set, EntryView, PushKind, Storage,
};

verus! {

/// The reply `+PONG`.
pub open spec fn pong() -> Seq<u8> {
    seq![80u8, 79u8, 78u8, 71u8]
}

/// The reply `+OK`.
pub open spec fn ok() -> Seq<u8> {
    seq![79u8, 75u8]
}

/// The error reply for an error: its message.
pub open spec fn error_reply_view(e: CommandError) -> RedisValueView {
    RedisValueView::Error(
        match error_text(e) {
            Some(t) => t,
            None => Seq::empty(),
        },
    )
}

/// The reply to a command run at time `now`, and the store after it. `Lpop` and `NoOp` get no
/// reply.
pub open spec fn spec_execute(m: Map<Seq<u8>, EntryView>, c: CommandView, now: int) -> (
    Option<RedisValueView>,
    Map<Seq<u8>, EntryView>,
) {
    match c {
        CommandView::Ping => (Some(RedisValueView::SimpleString(pong())), m),
        CommandView::Echo(a) => (Some(RedisValueView::BulkString(a)), m),
        CommandView::SetValue(k, v, exp) => (
            Some(RedisValueView::SimpleString(ok())),
            spec_set(m, k, v, exp),
        ),
        CommandView::Push(kind, k, vs) => {
            let (n, m2) = spec_push(m, kind, k, vs);
            (Some(RedisValueView::Integer(n as int)), m2)
        },
        CommandView::Get(k) => {
            let (v, m2) = spec_get(m, k, now);
            (
                Some(
                    match v {
                        Some(x) => RedisValueView::BulkString(x),
                        None => RedisValueView::Null,
                    },
                ),
                m2,
            )
        },
        CommandView::Lrange(k, a, b) => {
            let (res, m2) = spec_get_range(m, k, a, b, now);
            (
                Some(
                    match res {
                        Ok(l) => RedisValueView::Array(
                            Seq::new(l.len(), |i: int| RedisValueView::BulkString(l[i])),
                        ),
                        Err(e) => error_reply_view(e),
                    },
                ),
                m2,
            )
        },
        CommandView::Llen(k) => {
            let (n, m2) = spec_llen(m, k, now);
            (Some(RedisValueView::Integer(n as int)), m2)
        },
        CommandView::Lpop(_) => (None, m),
        CommandView::NoOp => (None, m),
    }
}

pub open spec fn reply_view(r: Option<RedisValue>) -> Option<RedisValueView> {
    match r {
        Some(v) => Some(v@),
        None => None,
    }
}

/// The command keeps every list within the length a Rust collection can have.
pub open spec fn command_fits(m: Map<Seq<u8>, EntryView>, c: CommandView) -> bool {
    c matches CommandView::Push(kind, k, vs) ==> push_fits(m, kind, k, vs)
}

/// Whether `execute` can take this command on this store.
pub fn fits(storage: &Storage, command: &Command) -> (r: bool)
    ensures
        r == command_fits(storage@, command_view(*command)),
{
    match command {
        Command::Push(op) => can_push(storage, op),
        _ => true,
    }
}

/// The error reply for an error: its message. For an I/O error, the message starts with
/// `io error: ` and goes on with the error's own text.
pub fn error_reply(e: &CommandError) -> (r: RedisValue)
    ensures
        error_text(*e) is Some ==> r@ == error_reply_view(*e),
        *e is IoError ==> (r@ matches RedisValueView::Error(t) && "io error: "@.is_prefix_of(t)),
{
    RedisValue::Error(e.to_string())
}

/// Runs a command against the store at time `now` and gives the reply, if any.
pub fn execute_at(storage: &mut Storage, command: Command, now: i128) -> (r: Option<RedisValue>)
    requires
        command_fits(old(storage)@, command_view(command)),
    ensures
        (reply_view(r), final(storage)@) == spec_execute(
            old(storage)@,
            command_view(command),
            now as int,
        ),
{
    match command {
        Command::Ping => {
            let mut s: Vec<u8> = Vec::new();
            s.push(80u8);
            s.push(79u8);
            s.push(78u8);
            s.push(71u8);
            assert(s@ =~= pong());
            Some(RedisValue::SimpleString(s))
        },
        Command::Echo(arg) => Some(RedisValue::BulkString(arg)),
        Command::SetValue(operation) => {
            crate::storage::set(storage, operation);
            let mut s: Vec<u8> = Vec::new();
            s.push(79u8);
            s.push(75u8);
            assert(s@ =~= ok());
            Some(RedisValue::SimpleString(s))
        },
        Command::Push(operation) => {
            let len = push(storage, operation);
            Some(RedisValue::Integer(len as i64))
        },
        Command::Get(key) => match get_at(storage, key, now) {
            Some(v) => Some(RedisValue::BulkString(v)),
            None => Some(RedisValue::Null),
        },
        Command::Lrange(operation) => match get_range_at(storage, operation, now) {
            Ok(elements) => {
                let ghost l = views(elements@);
                let mut out: Vec<RedisValue> = Vec::new();
                let mut i: usize = 0;
                while i < elements.len()
                    invariant
                        i <= elements@.len(),
                        l == views(elements@),
                        out@.len() == i,
                        forall|j: int| 0 <= j < i ==> #[trigger] out@[j]@ == RedisValueView::BulkString(l[j]),
                    decreases elements@.len() - i,
                {
                    out.push(RedisValue::BulkString(copy_bytes(elements[i].as_slice())));
                    i += 1;
                }
                let r = RedisValue::Array(out);
                assert(r@->Array_0.len() == l.len());
                assert forall|j: int| 0 <= j < l.len() implies r@->Array_0[j] == RedisValueView::BulkString(l[j]) by {
                    assert(out@[j]@ == RedisValueView::BulkString(l[j]));
                }
                assert(r@->Array_0 =~= Seq::new(l.len(), |j: int| RedisValueView::BulkString(l[j])));
                Some(r)
            },
            Err(e) => Some(error_reply(&e)),
        },
        Command::Llen(key) => {
            let n = llen_at(storage, key, now);
            Some(RedisValue::Integer(n as i64))
        },
        Command::Lpop(_) => None,
        Command::NoOp => None,
    }
}

/// Runs a command against the store at the current time and gives the reply, if any.
pub fn execute(storage: &mut Storage, command: Command) -> (r: Option<RedisValue>)
    requires
        command_fits(old(storage)@, command_view(command)),
    ensures
        exists|now: int|
            clock_reading(now) && (reply_view(r), final(storage)@) == spec_execute(
                old(storage)@,
                command_view(command),
                now,
            ),
{
    let now = now_nanos();
    execute_at(storage, command, now)
}

// ------------------------------------------------------------------------------------------
// A whole request.
// ------------------------------------------------------------------------------------------

/// The reply to a decoded request received at time `now`, and the store after it: a request
/// that is not a list of tokens, or whose tokens are not a command, is answered with its error
/// and leaves the store as it was; otherwise its command runs.
pub open spec fn spec_respond(m: Map<Seq<u8>, EntryView>, v: RedisValueView, now: int) -> (
    Option<RedisValueView>,
    Map<Seq<u8>, EntryView>,
) {
    match spec_normalize(v) {
        Err(e) => (Some(error_reply_view(e)), m),
        Ok(ws) => match spec_command_at(ws, now) {
            Err(e) => (Some(error_reply_view(e)), m),
            Ok(c) => spec_execute(m, c, now),
        },
    }
}

/// The request stays within the machine's limits on this store: a SET's time to live, in
/// milliseconds, is an `i64` other than `i64::MIN`, and a push keeps every list within the
/// length a Rust collection can have.
pub open spec fn request_fits(m: Map<Seq<u8>, EntryView>, v: RedisValueView) -> bool {
    spec_normalize(v) matches Ok(ws) ==> words_ttl_in_range(ws) && (spec_command(ws) matches Ok(
        c,
    ) ==> command_fits(m, c))
}

proof fn lemma_refusals_have_text(v: RedisValueView, now: int)
    ensures
        spec_normalize(v) matches Err(e) ==> error_text(e) is Some,
        spec_normalize(v) matches Ok(ws) ==> (spec_command_at(ws, now) matches Err(e)
            ==> error_text(e) is Some),
{
}

/// Answers a decoded request received at time `now`: its tokens, its command, and the
/// command's reply, or the error that stopped it.
pub fn respond_at(storage: &mut Storage, value: &RedisValue, now: i128) -> (r: Option<RedisValue>)
    requires
        clock_reading(now as int),
        request_fits(old(storage)@, value@),
    ensures
        (reply_view(r), final(storage)@) == spec_respond(old(storage)@, value@, now as int),
{
    proof {
        lemma_refusals_have_text(value@, now as int);
    }
    let words = match normalize_command_args(value) {
        Err(e) => return Some(error_reply(&e)),
        Ok(words) => words,
    };
    let command = match parse_at(words.as_slice(), now) {
        Err(e) => return Some(error_reply(&e)),
        Ok(command) => command,
    };
    execute_at(storage, command, now)
}

/// Answers a decoded request at the current time.
pub fn respond(storage: &mut Storage, value: &RedisValue) -> (r: Option<RedisValue>)
    requires
        request_fits(old(storage)@, value@),
    ensures
        exists|now: int|
            clock_reading(now) && (reply_view(r), final(storage)@) == #[trigger] spec_respond(
                old(storage)@,
                value@,
                now,
            ),
{
    let now = now_nanos();
    respond_at(storage, value, now)
}

/// Whether `respond` can take this request on this store.
pub fn can_respond(storage: &Storage, value: &RedisValue) -> (r: bool)
    ensures
        r == request_fits(storage@, value@),
{
    let words = match normalize_command_args(value) {
        Err(_) => return true,
        Ok(words) => words,
    };
    if !ttl_fits(words.as_slice()) {
        return false;
    }
    match parse_at(words.as_slice(), 0) {
        Err(_) => true,
        Ok(command) => fits(storage, &command),
    }
}

/// A request that is not a list of tokens, or whose tokens are not a command, is answered with
/// an error and leaves the store as it was.
pub proof fn law_refused_request_changes_nothing(
    m: Map<Seq<u8>, EntryView>,
    v: RedisValueView,
    now: int,
)
    requires
        spec_normalize(v) is Err || spec_command(spec_normalize(v)->Ok_0) is Err,
    ensures
        spec_respond(m, v, now).0 matches Some(RedisValueView::Error(_)),
        spec_respond(m, v, now).1 == m,
{
}

/// A GET after a SET of the same key (without expiry) answers the stored value.
pub proof fn law_get_answers_last_set(
    m: Map<Seq<u8>, EntryView>,
    key: Seq<u8>,
    value: Seq<u8>,
    now: int,
    later: int,
)
    ensures
        ({
            let after_set = spec_execute(m, CommandView::SetValue(key, value, None), now).1;
            spec_execute(after_set, CommandView::Get(key), later).0 == Some(
                RedisValueView::BulkString(value),
            )
        }),
{
}

/// A GET after a SET with a time to live of `t` milliseconds answers the stored value up to
/// and including the instant the entry expires, and nothing after it.
pub proof fn law_get_within_time_to_live(
    m: Map<Seq<u8>, EntryView>,
    key: Seq<u8>,
    value: Seq<u8>,
    t: int,
    now: int,
    later: int,
)
    ensures
        ({
            let after_set = spec_execute(
                m,
                CommandView::SetValue(key, value, Some(expiry_at(now, t))),
                now,
            ).1;
            spec_execute(after_set, CommandView::Get(key), later).0 == Some(
                if later <= expiry_at(now, t) {
                    RedisValueView::BulkString(value)
                } else {
                    RedisValueView::Null
                },
            )
        }),
{
}

/// ECHO answers its argument, and PING answers PONG; neither changes the store.
pub proof fn law_echo_and_ping(m: Map<Seq<u8>, EntryView>, a: Seq<u8>, now: int)
    ensures
        spec_execute(m, CommandView::Echo(a), now) == (
            Some(RedisValueView::BulkString(a)),
            m,
        ),
        spec_execute(m, CommandView::Ping, now) == (
            Some(RedisValueView::SimpleString(pong())),
            m,
        ),
{
}

/// After an RPUSH onto a key that holds no entry, `LRANGE key 0 -1` answers the pushed values
/// in their order.
pub proof fn law_lrange_after_rpush(
    m: Map<Seq<u8>, EntryView>,
    key: Seq<u8>,
    values: Seq<Seq<u8>>,
    now: int,
)
    requires
        !m.contains_key(key),
    ensures
        ({
            let after = spec_execute(m, CommandView::Push(crate::storage::PushKind::RPush, key, values), now).1;
            spec_execute(after, CommandView::Lrange(key, 0, -1), now).0 == Some(
                RedisValueView::Array(
                    Seq::new(values.len(), |i: int| RedisValueView::BulkString(values[i])),
                ),
            )
        }),
{
    crate::storage::law_range_after_push(m, crate::storage::PushKind::RPush, key, values, now);
    assert(crate::storage::list_before_push(m, key) + values =~= values);
}


/// The reply to an RPUSH or LPUSH is the length of the list after the push: its old length
/// plus the number of values pushed, which is what LLEN then answers.
pub proof fn law_push_replies_new_length(
    m: Map<Seq<u8>, EntryView>,
    kind: PushKind,
    k: Seq<u8>,
    vs: Seq<Seq<u8>>,
    now: int,
)
    ensures
        spec_execute(m, CommandView::Push(kind, k, vs), now).0 == Some(
            RedisValueView::Integer((list_before_push(m, k).len() + vs.len()) as int),
        ),
        !(m.contains_key(k) && expired(m[k], now)) ==> spec_execute(
            spec_execute(m, CommandView::Push(kind, k, vs), now).1,
            CommandView::Llen(k),
            now,
        ).0 == spec_execute(m, CommandView::Push(kind, k, vs), now).0,
{
}

/// A request made of the given tokens, each sent as a bulk string.
pub open spec fn bulk_request(ws: Seq<Seq<u8>>) -> RedisValueView {
    RedisValueView::Array(Seq::new(ws.len(), |i: int| RedisValueView::BulkString(ws[i])))
}

proof fn lemma_bulk_request_tokens(ws: Seq<Seq<u8>>)
    ensures
        spec_normalize(bulk_request(ws)) == Ok::<Seq<Seq<u8>>, CommandError>(ws),
{
    let items = bulk_request(ws)->Array_0;
    assert forall|i: int| 0 <= i < items.len() implies (#[trigger] items[i] is BulkString
        || items[i] is SimpleString) by {}
    assert(Seq::new(items.len(), |i: int| crate::command::string_payload(items[i])) =~= ws);
}

proof fn lemma_get_request(k: Seq<u8>)
    ensures
        spec_command(seq![word_get(), k]) == Ok::<CommandView, CommandError>(CommandView::Get(k)),
{
    let ws = seq![word_get(), k];
    assert(ws[0] == word_get());
    assert(word_get()[0] != word_set()[0]);
    assert(ws.skip(1) =~= seq![k]);
}

proof fn lemma_set_request(k: Seq<u8>, v: Seq<u8>, kw: Seq<u8>, tok: Seq<u8>)
    requires
        kw == keyword_px() || kw == keyword_ex(),
    ensures
        spec_command(seq![word_set(), k, v, kw, tok]) == (match spec_parse_ttl(
            tok,
            if kw == keyword_px() { 1int } else { 1000int },
        ) {
            Ok(t) => Ok::<CommandView, CommandError>(CommandView::SetValue(k, v, Some(t))),
            Err(e) => Err(e),
        }),
{
    let ws = seq![word_set(), k, v, kw, tok];
    assert(ws[0] == word_set());
    let t = ws.skip(1);
    assert(t =~= seq![k, v, kw, tok]);
    assert(t[2] == kw);
    assert(t[3] == tok);
    assert(keyword_px()[0] != keyword_ex()[0]);
}

/// A SET with a time to live of `n` milliseconds (`PX n`), or `n` seconds (`EX n`), answered
/// at `now`, is answered OK; a GET of the key answers the value at any time up to `n`
/// milliseconds (or seconds) after `now`, and nothing after that.
pub proof fn law_set_with_ttl_then_get(
    m: Map<Seq<u8>, EntryView>,
    k: Seq<u8>,
    v: Seq<u8>,
    tok: Seq<u8>,
    n: int,
    seconds: bool,
    now: int,
    later: int,
)
    requires
        spec_parse_ttl(tok, 1) == Ok::<int, CommandError>(n),
        -i64::MAX <= n * (if seconds { 1000int } else { 1int }) <= i64::MAX,
    ensures
        ({
            let kw = if seconds { seq![69u8, 88u8] } else { seq![80u8, 88u8] };
            let ms = if seconds { n * 1000 } else { n };
            let set = seq![83u8, 69u8, 84u8];
            let get = seq![71u8, 69u8, 84u8];
            let (r1, m1) = spec_respond(m, bulk_request(seq![set, k, v, kw, tok]), now);
            let r2 = spec_respond(m1, bulk_request(seq![get, k]), later).0;
            &&& r1 == Some(RedisValueView::SimpleString(seq![79u8, 75u8]))
            &&& later <= now + ms * 1_000_000 ==> r2 == Some(RedisValueView::BulkString(v))
            &&& later > now + ms * 1_000_000 ==> r2 == Some(RedisValueView::Null)
        }),
{
    assert(word_set() =~= seq![83u8, 69u8, 84u8]);
    assert(word_get() =~= seq![71u8, 69u8, 84u8]);
    assert(keyword_ex() =~= seq![69u8, 88u8]);
    assert(keyword_px() =~= seq![80u8, 88u8]);
    assert(ok() =~= seq![79u8, 75u8]);
    let kw = if seconds { keyword_ex() } else { keyword_px() };
    let ms = if seconds { n * 1000 } else { n };
    let set_ws = seq![word_set(), k, v, kw, tok];
    lemma_bulk_request_tokens(set_ws);
    lemma_bulk_request_tokens(seq![word_get(), k]);
    lemma_set_request(k, v, kw, tok);
    lemma_get_request(k);
    assert(spec_parse_ttl(tok, if kw == keyword_px() { 1int } else { 1000int }) == Ok::<
        int,
        CommandError,
    >(ms)) by {
        assert(keyword_px()[0] != keyword_ex()[0]);
    }
    assert(spec_command_at(set_ws, now) == Ok::<CommandView, CommandError>(
        CommandView::SetValue(k, v, Some(now + ms * 1_000_000)),
    ));
}

} // verus!
