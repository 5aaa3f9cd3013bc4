//! Generic static messages for parsers (no Redis command wording).

use vstd::prelude::*;

verus! {

pub const WRONG_ARGUMENT_COUNT: &'static str = "wrong number of arguments";

pub const MISSING_ARGUMENT: &'static str = "missing required argument";

pub const EXTRA_TRAILING: &'static str = "unexpected trailing arguments";

pub const INVALID_OPTION_TOKEN: &'static str = "unrecognized option";

pub const MISSING_OPTION_ARGUMENT: &'static str = "missing value after option keyword";

pub const INVALID_UTF8: &'static str = "argument is not valid UTF-8";

pub const INVALID_INTEGER: &'static str = "argument is not a valid signed integer";

pub const INVALID_NUMBER: &'static str = "argument is not a valid number";

pub const RESPONSE_NOT_STRING_ELEMENTS: &'static str = "decoded array entries must be strings";

pub const TOP_LEVEL_SHAPE: &'static str =
    "top-level input must be an array tokenization or plain line";

pub const UNKNOWN_COMMAND_WORD: &'static str = "unknown command";

pub const VALUE_TYPE_MISMATCH: &'static str = "stored value does not match expected type";

} // verus!
