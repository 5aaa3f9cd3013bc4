//! The argument shapes of the commands, and their parsers.
//!
//! Each shape reads the tokens after the command word: positional arguments in order, an
//! optional keyword group, and a rule for what may follow (nothing, exactly a given number of
//! tokens, or anything).

use vstd::prelude::*;
use vstd::utf8::valid_utf8;
use crate::byte_strings::{bytes_equal, copy_bytes, lemma_views_push, views};
use crate::command::parse_errors;
use crate::command::spec_parse::{
    arg_error, is_utf8, parse_isize_token, spec_isize_token, CommandSyntax, OptionGroupParser,
};
use crate::command::{CommandError, ParsedTail};

verus! {

/// `PING`: any tokens may follow.
pub struct PingParsed;

/// `ECHO message`: one UTF-8 token.
pub struct EchoParsed {
    pub message: Vec<u8>,
}

/// `GET key`.
pub struct GetParsed {
    pub key: Vec<u8>,
}

/// The optional expiry of `SET`: `EX seconds` or `PX milliseconds`.
pub enum SetExpiration {
    Absent,
    Ex(Vec<u8>),
    Px(Vec<u8>),
}

/// `SET key value [EX seconds | PX milliseconds]`.
pub struct SetParsed {
    pub key: Vec<u8>,
    pub value: Vec<u8>,
    pub expiration: SetExpiration,
}

/// `RPUSH key value...`.
pub struct RPushParsed {
    pub key: Vec<u8>,
    pub values: Vec<Vec<u8>>,
}

/// `LPUSH key value...`.
pub struct LPushParsed {
    pub key: Vec<u8>,
    pub values: Vec<Vec<u8>>,
}

/// `LRANGE key start stop`.
pub struct LRangeParsed {
    pub key: Vec<u8>,
    pub start: isize,
    pub stop: isize,
}

/// `LLEN key`.
pub struct LLenParsed {
    pub key: Vec<u8>,
}

/// `LPOP key`.
pub struct LPopParsed {
    pub key: Vec<u8>,
}

/// What an expiry group holds.
pub enum ExpirationView {
    Absent,
    Ex(Seq<u8>),
    Px(Seq<u8>),
}

pub open spec fn expiration_view(e: SetExpiration) -> ExpirationView {
    match e {
        SetExpiration::Absent => ExpirationView::Absent,
        SetExpiration::Ex(b) => ExpirationView::Ex(b@),
        SetExpiration::Px(b) => ExpirationView::Px(b@),
    }
}

/// The keyword `EX`.
pub open spec fn keyword_ex() -> Seq<u8> {
    seq![69u8, 88u8]
}

/// The keyword `PX`.
pub open spec fn keyword_px() -> Seq<u8> {
    seq![80u8, 88u8]
}

/// Exactly one token.
pub open spec fn spec_exactly_one(t: Seq<Seq<u8>>) -> Result<Seq<u8>, CommandError> {
    if t.len() != 1 {
        Err(arg_error(parse_errors::WRONG_ARGUMENT_COUNT))
    } else {
        Ok(t[0])
    }
}

/// Exactly one token, which is UTF-8.
pub open spec fn spec_echo(t: Seq<Seq<u8>>) -> Result<Seq<u8>, CommandError> {
    if t.len() != 1 {
        Err(arg_error(parse_errors::WRONG_ARGUMENT_COUNT))
    } else if !valid_utf8(t[0]) {
        Err(arg_error(parse_errors::INVALID_UTF8))
    } else {
        Ok(t[0])
    }
}

/// An expiry group starting at `idx`: the group, and the position after it.
pub open spec fn spec_option_group(t: Seq<Seq<u8>>, idx: int) -> (
    Result<ExpirationView, CommandError>,
    int,
) {
    if idx >= t.len() {
        (Ok(ExpirationView::Absent), idx)
    } else if t[idx] == keyword_ex() || t[idx] == keyword_px() {
        if idx + 1 >= t.len() {
            (Err(arg_error(parse_errors::MISSING_OPTION_ARGUMENT)), idx + 1)
        } else if t[idx] == keyword_ex() {
            (Ok(ExpirationView::Ex(t[idx + 1])), idx + 2)
        } else {
            (Ok(ExpirationView::Px(t[idx + 1])), idx + 2)
        }
    } else {
        (Err(arg_error(parse_errors::INVALID_OPTION_TOKEN)), idx)
    }
}

/// `key value [group]` and nothing after.
pub open spec fn spec_set_tail(t: Seq<Seq<u8>>) -> Result<
    (Seq<u8>, Seq<u8>, ExpirationView),
    CommandError,
> {
    if t.len() < 2 {
        Err(arg_error(parse_errors::MISSING_ARGUMENT))
    } else {
        match spec_option_group(t, 2) {
            (Err(e), _) => Err(e),
            (Ok(x), i) => if i != t.len() {
                Err(arg_error(parse_errors::EXTRA_TRAILING))
            } else {
                Ok((t[0], t[1], x))
            },
        }
    }
}

/// `key value...`: a key and at least one value.
pub open spec fn spec_push_tail(t: Seq<Seq<u8>>) -> Result<(Seq<u8>, Seq<Seq<u8>>), CommandError> {
    if t.len() < 2 {
        Err(arg_error(parse_errors::MISSING_ARGUMENT))
    } else {
        Ok((t[0], t.skip(1)))
    }
}

/// `key start stop`: exactly three tokens, the last two integers.
pub open spec fn spec_lrange(t: Seq<Seq<u8>>) -> Result<(Seq<u8>, int, int), CommandError> {
    if t.len() != 3 {
        Err(arg_error(parse_errors::WRONG_ARGUMENT_COUNT))
    } else {
        match spec_isize_token(t[1]) {
            Err(e) => Err(e),
            Ok(a) => match spec_isize_token(t[2]) {
                Err(e) => Err(e),
                Ok(b) => Ok((t[0], a, b)),
            },
        }
    }
}

/// Copies the tokens `from..` of `tokens`.
fn copy_tokens(tokens: &[Vec<u8>], from: usize) -> (r: Vec<Vec<u8>>)
    requires
        from <= tokens@.len(),
    ensures
        views(r@) == views(tokens@).skip(from as int),
{
    let mut out: Vec<Vec<u8>> = Vec::new();
    let mut i: usize = from;
    while i < tokens.len()
        invariant
            from <= i <= tokens@.len(),
            views(out@) =~= views(tokens@).subrange(from as int, i as int),
        decreases tokens@.len() - i,
    {
        let c = copy_bytes(tokens[i].as_slice());
        proof {
            lemma_views_push(out@, c);
        }
        out.push(c);
        i += 1;
        assert(views(out@) =~= views(tokens@).subrange(from as int, i as int));
    }
    out
}

/// The token at `*idx` as a required positional argument.
fn positional(tokens: &[Vec<u8>], idx: &mut usize) -> (r: Result<Vec<u8>, CommandError>)
    ensures
        *old(idx) >= tokens@.len() ==> (r matches Err(e) && e == arg_error(
            parse_errors::MISSING_ARGUMENT,
        ) && *final(idx) == *old(idx)),
        *old(idx) < tokens@.len() ==> (r matches Ok(v) && v@ == views(tokens@)[*old(idx) as int]
            && *final(idx) == *old(idx) + 1),
{
    if *idx >= tokens.len() {
        return Err(CommandError::InvalidArgument(parse_errors::MISSING_ARGUMENT));
    }
    let v = copy_bytes(tokens[*idx].as_slice());
    *idx += 1;
    Ok(v)
}

impl CommandSyntax for PingParsed {
    const COMMAND_NAME: &'static str = "PING";

    /// Accepts any tokens.
    fn try_from_tail(parsed_tail: ParsedTail<'_>) -> (r: Result<Self, CommandError>)
        ensures
            r is Ok,
    {
        let _tokens = parsed_tail.0;
        Ok(PingParsed)
    }
}

impl CommandSyntax for EchoParsed {
    const COMMAND_NAME: &'static str = "ECHO";

    fn try_from_tail(parsed_tail: ParsedTail<'_>) -> (r: Result<Self, CommandError>)
        ensures
            match spec_echo(views(parsed_tail.0@)) {
                Ok(m) => r matches Ok(p) && p.message@ == m,
                Err(e) => r matches Err(e2) && e2 == e,
            },
    {
        let tokens = parsed_tail.0;
        if tokens.len() != 1 {
            return Err(CommandError::InvalidArgument(parse_errors::WRONG_ARGUMENT_COUNT));
        }
        let mut idx: usize = 0;
        let message = positional(tokens, &mut idx)?;
        if !is_utf8(message.as_slice()) {
            return Err(CommandError::InvalidArgument(parse_errors::INVALID_UTF8));
        }
        assert(idx == tokens.len());
        Ok(EchoParsed { message })
    }
}

impl CommandSyntax for GetParsed {
    const COMMAND_NAME: &'static str = "GET";

    fn try_from_tail(parsed_tail: ParsedTail<'_>) -> (r: Result<Self, CommandError>)
        ensures
            match spec_exactly_one(views(parsed_tail.0@)) {
                Ok(k) => r matches Ok(p) && p.key@ == k,
                Err(e) => r matches Err(e2) && e2 == e,
            },
    {
        let tokens = parsed_tail.0;
        if tokens.len() != 1 {
            return Err(CommandError::InvalidArgument(parse_errors::WRONG_ARGUMENT_COUNT));
        }
        let mut idx: usize = 0;
        let key = positional(tokens, &mut idx)?;
        assert(idx == tokens.len());
        Ok(GetParsed { key })
    }
}

impl CommandSyntax for LLenParsed {
    const COMMAND_NAME: &'static str = "LLEN";

    fn try_from_tail(parsed_tail: ParsedTail<'_>) -> (r: Result<Self, CommandError>)
        ensures
            match spec_exactly_one(views(parsed_tail.0@)) {
                Ok(k) => r matches Ok(p) && p.key@ == k,
                Err(e) => r matches Err(e2) && e2 == e,
            },
    {
        let tokens = parsed_tail.0;
        if tokens.len() != 1 {
            return Err(CommandError::InvalidArgument(parse_errors::WRONG_ARGUMENT_COUNT));
        }
        let mut idx: usize = 0;
        let key = positional(tokens, &mut idx)?;
        assert(idx == tokens.len());
        Ok(LLenParsed { key })
    }
}

impl CommandSyntax for LPopParsed {
    const COMMAND_NAME: &'static str = "LPOP";

    fn try_from_tail(parsed_tail: ParsedTail<'_>) -> (r: Result<Self, CommandError>)
        ensures
            match spec_exactly_one(views(parsed_tail.0@)) {
                Ok(k) => r matches Ok(p) && p.key@ == k,
                Err(e) => r matches Err(e2) && e2 == e,
            },
    {
        let tokens = parsed_tail.0;
        if tokens.len() != 1 {
            return Err(CommandError::InvalidArgument(parse_errors::WRONG_ARGUMENT_COUNT));
        }
        let mut idx: usize = 0;
        let key = positional(tokens, &mut idx)?;
        assert(idx == tokens.len());
        Ok(LPopParsed { key })
    }
}

impl OptionGroupParser for SetExpiration {
    /// At the end of the tokens the group is absent; otherwise the token at `*idx` must be
    /// `EX` or `PX` and be followed by its value.
    fn parse_option_group(tokens: &[Vec<u8>], idx: &mut usize) -> (r: Result<Self, CommandError>)
        ensures
            ({
                let (s, next) = spec_option_group(views(tokens@), *old(idx) as int);
                &&& *final(idx) == next
                &&& match s {
                    Ok(x) => r matches Ok(p) && expiration_view(p) == x,
                    Err(e) => r matches Err(e2) && e2 == e,
                }
            }),
    {
        if *idx >= tokens.len() {
            return Ok(SetExpiration::Absent);
        }
        let h = tokens[*idx].as_slice();
        assert(h@ == views(tokens@)[*idx as int]);
        let ex: [u8; 2] = [69u8, 88u8];
        let px: [u8; 2] = [80u8, 88u8];
        let ex_slice = vstd::array::array_as_slice(&ex);
        let px_slice = vstd::array::array_as_slice(&px);
        assert(ex_slice@ =~= keyword_ex());
        assert(px_slice@ =~= keyword_px());
        if bytes_equal(h, ex_slice) {
            *idx += 1;
            if *idx >= tokens.len() {
                return Err(CommandError::InvalidArgument(parse_errors::MISSING_OPTION_ARGUMENT));
            }
            let payload = copy_bytes(tokens[*idx].as_slice());
            *idx += 1;
            return Ok(SetExpiration::Ex(payload));
        }
        if bytes_equal(h, px_slice) {
            *idx += 1;
            if *idx >= tokens.len() {
                return Err(CommandError::InvalidArgument(parse_errors::MISSING_OPTION_ARGUMENT));
            }
            let payload = copy_bytes(tokens[*idx].as_slice());
            *idx += 1;
            return Ok(SetExpiration::Px(payload));
        }
        Err(CommandError::InvalidArgument(parse_errors::INVALID_OPTION_TOKEN))
    }
}

impl CommandSyntax for SetParsed {
    const COMMAND_NAME: &'static str = "SET";

    fn try_from_tail(parsed_tail: ParsedTail<'_>) -> (r: Result<Self, CommandError>)
        ensures
            match spec_set_tail(views(parsed_tail.0@)) {
                Ok((k, v, x)) => r matches Ok(p) && p.key@ == k && p.value@ == v
                    && expiration_view(p.expiration) == x,
                Err(e) => r matches Err(e2) && e2 == e,
            },
    {
        let tokens = parsed_tail.0;
        let mut idx: usize = 0;
        let key = positional(tokens, &mut idx)?;
        let value = positional(tokens, &mut idx)?;
        let expiration = SetExpiration::parse_option_group(tokens, &mut idx)?;
        if idx != tokens.len() {
            return Err(CommandError::InvalidArgument(parse_errors::EXTRA_TRAILING));
        }
        Ok(SetParsed { key, value, expiration })
    }
}

impl CommandSyntax for RPushParsed {
    const COMMAND_NAME: &'static str = "RPUSH";

    fn try_from_tail(parsed_tail: ParsedTail<'_>) -> (r: Result<Self, CommandError>)
        ensures
            match spec_push_tail(views(parsed_tail.0@)) {
                Ok((k, vs)) => r matches Ok(p) && p.key@ == k && views(p.values@) == vs,
                Err(e) => r matches Err(e2) && e2 == e,
            },
    {
        let tokens = parsed_tail.0;
        let mut idx: usize = 0;
        let key = positional(tokens, &mut idx)?;
        if idx >= tokens.len() {
            return Err(CommandError::InvalidArgument(parse_errors::MISSING_ARGUMENT));
        }
        let values = copy_tokens(tokens, idx);
        assert(views(values@).len() == values@.len());
        if values.len() == 0 {
            return Err(CommandError::InvalidArgument(parse_errors::WRONG_ARGUMENT_COUNT));
        }
        Ok(RPushParsed { key, values })
    }
}

impl CommandSyntax for LPushParsed {
    const COMMAND_NAME: &'static str = "LPUSH";

    fn try_from_tail(parsed_tail: ParsedTail<'_>) -> (r: Result<Self, CommandError>)
        ensures
            match spec_push_tail(views(parsed_tail.0@)) {
                Ok((k, vs)) => r matches Ok(p) && p.key@ == k && views(p.values@) == vs,
                Err(e) => r matches Err(e2) && e2 == e,
            },
    {
        let tokens = parsed_tail.0;
        let mut idx: usize = 0;
        let key = positional(tokens, &mut idx)?;
        if idx >= tokens.len() {
            return Err(CommandError::InvalidArgument(parse_errors::MISSING_ARGUMENT));
        }
        let values = copy_tokens(tokens, idx);
        assert(views(values@).len() == values@.len());
        if values.len() == 0 {
            return Err(CommandError::InvalidArgument(parse_errors::WRONG_ARGUMENT_COUNT));
        }
        Ok(LPushParsed { key, values })
    }
}

impl CommandSyntax for LRangeParsed {
    const COMMAND_NAME: &'static str = "LRANGE";

    fn try_from_tail(parsed_tail: ParsedTail<'_>) -> (r: Result<Self, CommandError>)
        ensures
            match spec_lrange(views(parsed_tail.0@)) {
                Ok((k, a, b)) => r matches Ok(p) && p.key@ == k && p.start == a && p.stop == b,
                Err(e) => r matches Err(e2) && e2 == e,
            },
    {
        let tokens = parsed_tail.0;
        if tokens.len() != 3 {
            return Err(CommandError::InvalidArgument(parse_errors::WRONG_ARGUMENT_COUNT));
        }
        let mut idx: usize = 0;
        let key = positional(tokens, &mut idx)?;
        let start = parse_isize_token(tokens, &mut idx)?;
        let stop = parse_isize_token(tokens, &mut idx)?;
        assert(idx == tokens.len());
        Ok(LRangeParsed { key, start, stop })
    }
}

} // verus!
