//! Traits implemented by the parsed command shapes, and helpers for their parsers.

use vstd::prelude::*;
use vstd::utf8::valid_utf8;
use crate::byte_strings::views;
use crate::command::parse_errors;
use crate::command::{CommandError, ParsedTail};
use crate::numeric::{parse_isize, signed_from_str};

verus! {

/// A command's argument shape, parsed from the tokens after the command word.
pub trait CommandSyntax: Sized {
    const COMMAND_NAME: &'static str;

    fn try_from_tail(parsed_tail: ParsedTail<'_>) -> Result<Self, CommandError>;
}

/// An optional keyword group (such as `EX seconds`) parsed from position `idx` on.
pub trait OptionGroupParser: Sized {
    fn parse_option_group(tokens: &[Vec<u8>], idx: &mut usize) -> Result<Self, CommandError>;
}

/// `core::str::from_utf8`: it succeeds exactly on well-formed UTF-8, which vstd's
/// `valid_utf8` states.
#[verifier::external_body]
pub(crate) fn is_utf8(bytes: &[u8]) -> (r: bool)
    ensures
        r == valid_utf8(bytes@),
{
    core::str::from_utf8(bytes).is_ok()
}

pub open spec fn arg_error(msg: &'static str) -> CommandError {
    CommandError::InvalidArgument(msg)
}

/// One token read as UTF-8 and then as an `isize`.
pub open spec fn spec_isize_token(token: Seq<u8>) -> Result<int, CommandError> {
    if !valid_utf8(token) {
        Err(arg_error(parse_errors::INVALID_UTF8))
    } else {
        match signed_from_str(token, isize::MIN as int, isize::MAX as int) {
            Some(v) => Ok(v),
            None => Err(arg_error(parse_errors::INVALID_INTEGER)),
        }
    }
}

/// Parses the token at `*idx` as UTF-8 and then as an `isize`, and steps past it.
pub fn parse_isize_token(tokens: &[Vec<u8>], idx: &mut usize) -> (r: Result<isize, CommandError>)
    ensures
        *old(idx) >= tokens@.len() ==> (r matches Err(e) && e == arg_error(
            parse_errors::MISSING_ARGUMENT,
        ) && *final(idx) == *old(idx)),
        *old(idx) < tokens@.len() ==> match spec_isize_token(views(tokens@)[*old(idx) as int]) {
            Ok(v) => r matches Ok(x) && x == v && *final(idx) == *old(idx) + 1,
            Err(e) => r matches Err(e2) && e2 == e && *final(idx) == *old(idx),
        },
{
    if *idx >= tokens.len() {
        return Err(CommandError::InvalidArgument(parse_errors::MISSING_ARGUMENT));
    }
    let b = tokens[*idx].as_slice();
    assert(b@ == views(tokens@)[*idx as int]);
    if !is_utf8(b) {
        return Err(CommandError::InvalidArgument(parse_errors::INVALID_UTF8));
    }
    let n = match parse_isize(b) {
        Some(n) => n,
        None => return Err(CommandError::InvalidArgument(parse_errors::INVALID_INTEGER)),
    };
    *idx += 1;
    Ok(n)
}

} // verus!
