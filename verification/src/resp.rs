//! RESP (Redis Serialization Protocol) parsing and encoding.
//!
//! The parser works on a byte buffer that grows as input arrives: it either finds a complete
//! value at the start of the buffer, reports that more bytes are needed, or rejects the input.
//! Parsing first produces a tree of index ranges into the buffer, which is then turned into a
//! [`RedisValue`].

use vstd::prelude::*;
use vstd::utf8::encode_utf8;
use crate::numeric::{
    all_digits, decimal, digits_value, display_int, is_digit, lemma_digits_value_prefix_le,
    lemma_digits_value_push, render_i64, render_u64,
};

verus! {

#[verifier::external_type_specification]
#[verifier::external_body]
pub struct ExIoError(std::io::Error);

/// A value of the protocol, as sent and received by the server.
#[derive(Debug)]
pub enum RedisValue {
    BulkString(Vec<u8>),
    SimpleString(Vec<u8>),
    Integer(i64),
    Array(Vec<RedisValue>),
    Error(String),
    Null,
}

/// The mathematical content of a [`RedisValue`].
pub enum RedisValueView {
    BulkString(Seq<u8>),
    SimpleString(Seq<u8>),
    Integer(int),
    Array(Seq<RedisValueView>),
    Error(Seq<char>),
    Null,
}

pub open spec fn value_view(v: RedisValue) -> RedisValueView
    decreases v,
{
    match v {
        RedisValue::BulkString(b) => RedisValueView::BulkString(b@),
        RedisValue::SimpleString(s) => RedisValueView::SimpleString(s@),
        RedisValue::Integer(i) => RedisValueView::Integer(i as int),
        RedisValue::Array(a) => RedisValueView::Array(
            Seq::new(
                a@.len(),
                |i: int|
                    if 0 <= i < a@.len() {
                        value_view(a@[i])
                    } else {
                        RedisValueView::Null
                    },
            ),
        ),
        RedisValue::Error(e) => RedisValueView::Error(e@),
        RedisValue::Null => RedisValueView::Null,
    }
}

impl View for RedisValue {
    type V = RedisValueView;

    open spec fn view(&self) -> RedisValueView {
        value_view(*self)
    }
}

/// Why a buffer does not hold a valid value.
#[derive(Debug)]
pub enum RespError {
    InvalidInt,
    InvalidSimpleString(&'static str),
    InvalidBulkString(&'static str),
    InvalidArray(&'static str),
    InternalError(&'static str),
    IoError(std::io::Error),
}

pub const SIMPLE_STRING_HAS_CRLF: &'static str = "simple string contains '\\r' or '\\n'";

pub const BULK_LENGTH_BELOW_NULL: &'static str = "bulk string length is less than -1";

pub const BULK_MISSING_CRLF: &'static str = "Expected CRLF after bulk string";

pub const ARRAY_LENGTH_BELOW_NULL: &'static str = "array length is less than -1";

pub const STRING_LENGTH_NOT_INT: &'static str = "string length is not an integer";

pub const ARRAY_LENGTH_NOT_INT: &'static str = "array length is not an integer";

pub const INVALID_TYPE_BYTE: &'static str = "invalid character, or unhandeled type";

// ------------------------------------------------------------------------------------------
// The grammar, as spec functions over the buffer.
// ------------------------------------------------------------------------------------------

/// The parse of one element: index ranges into the buffer for the string payloads.
pub enum Split {
    BulkString(int, int),
    SimpleString(int, int),
    Array(Seq<Split>),
    Int(int),
    NullArray,
    NullString,
}

/// The outcome of parsing at a position: more bytes are needed, the input is rejected, the
/// input is one on which the reading of an integer line breaks down (an empty line, or digits
/// whose value exceeds `i64`), or a value ends at the given position.
pub enum Step {
    Incomplete,
    Invalid(RespError),
    Fault,
    Done(int, Split),
}

pub open spec fn crlf_at(buf: Seq<u8>, i: int) -> bool {
    0 <= i && i + 1 < buf.len() && buf[i] == 13 && buf[i + 1] == 10
}

/// The position of the first CRLF at or after `pos`.
pub open spec fn first_crlf(buf: Seq<u8>, pos: int) -> Option<int>
    decreases buf.len() - pos,
{
    if pos < 0 || pos + 1 >= buf.len() {
        None
    } else if crlf_at(buf, pos) {
        Some(pos)
    } else {
        first_crlf(buf, pos + 1)
    }
}

/// How an integer line reads: its digits follow an optional `-`.
pub enum IntLine {
    Fault,
    Invalid,
    Value(int),
}

pub open spec fn int_digits(line: Seq<u8>) -> Seq<u8> {
    if line.len() > 0 && line[0] == 45 {
        line.skip(1)
    } else {
        line
    }
}

/// Some run of leading digits of `body` is worth more than `i64::MAX`.
pub open spec fn digit_overflow(body: Seq<u8>) -> bool {
    exists|j: int|
        0 <= j <= body.len() && all_digits(#[trigger] body.take(j)) && digits_value(body.take(j))
            > i64::MAX
}

pub open spec fn int_line(line: Seq<u8>) -> IntLine {
    if line.len() == 0 {
        IntLine::Fault
    } else if digit_overflow(int_digits(line)) {
        IntLine::Fault
    } else if !all_digits(int_digits(line)) {
        IntLine::Invalid
    } else if line[0] == 45 {
        IntLine::Value(-(digits_value(int_digits(line)) as int))
    } else {
        IntLine::Value(digits_value(int_digits(line)) as int)
    }
}

/// An integer line starting at `pos`.
pub open spec fn spec_int(buf: Seq<u8>, pos: int) -> Step {
    match first_crlf(buf, pos) {
        None => Step::Incomplete,
        Some(i) => match int_line(buf.subrange(pos, i)) {
            IntLine::Fault => Step::Fault,
            IntLine::Invalid => Step::Invalid(RespError::InvalidInt),
            IntLine::Value(v) => Step::Done(i + 2, Split::Int(v)),
        },
    }
}

/// A simple-string line starting at `pos`.
pub open spec fn spec_simple(buf: Seq<u8>, pos: int) -> Step {
    match first_crlf(buf, pos) {
        None => Step::Incomplete,
        Some(i) => if buf.subrange(pos, i).contains(13u8) || buf.subrange(pos, i).contains(10u8) {
            Step::Invalid(RespError::InvalidSimpleString(SIMPLE_STRING_HAS_CRLF))
        } else {
            Step::Done(i + 2, Split::SimpleString(pos, i))
        },
    }
}

/// A bulk string whose length line starts at `pos`.
pub open spec fn spec_bulk(buf: Seq<u8>, pos: int) -> Step {
    match spec_int(buf, pos) {
        Step::Done(start, Split::Int(n)) => if n < -1 {
            Step::Invalid(RespError::InvalidBulkString(BULK_LENGTH_BELOW_NULL))
        } else if n == -1 {
            Step::Done(start, Split::NullString)
        } else if start + n + 2 > buf.len() {
            Step::Incomplete
        } else if !crlf_at(buf, start + n) {
            Step::Invalid(RespError::InvalidBulkString(BULK_MISSING_CRLF))
        } else {
            Step::Done(start + n + 2, Split::BulkString(start, start + n))
        },
        Step::Done(_, _) => Step::Invalid(RespError::InternalError(STRING_LENGTH_NOT_INT)),
        other => other,
    }
}

/// Adds `items` in front of the elements of an array outcome.
pub open spec fn prepend(items: Seq<Split>, step: Step) -> Step {
    match step {
        Step::Done(q, Split::Array(rest)) => Step::Done(q, Split::Array(items + rest)),
        Step::Done(_, _) => Step::Fault,
        other => other,
    }
}

/// An array whose length line starts at `pos`.
pub open spec fn spec_array(buf: Seq<u8>, pos: int) -> Step
    decreases buf.len() - pos, 0int,
{
    match spec_int(buf, pos) {
        Step::Done(start, Split::Int(n)) => if n < -1 {
            Step::Invalid(RespError::InvalidArray(ARRAY_LENGTH_BELOW_NULL))
        } else if n == -1 {
            Step::Done(start, Split::NullArray)
        } else if start <= pos || start > buf.len() {
            Step::Fault
        } else {
            spec_elems(buf, start, n as nat)
        },
        Step::Done(_, _) => Step::Invalid(RespError::InternalError(ARRAY_LENGTH_NOT_INT)),
        other => other,
    }
}

/// `count` consecutive elements starting at `pos`.
pub open spec fn spec_elems(buf: Seq<u8>, pos: int, count: nat) -> Step
    decreases buf.len() - pos, 2int,
{
    if count == 0 {
        Step::Done(pos, Split::Array(Seq::empty()))
    } else {
        match spec_inner(buf, pos) {
            Step::Done(p1, v) => if p1 <= pos || p1 > buf.len() {
                Step::Fault
            } else {
                prepend(seq![v], spec_elems(buf, p1, (count - 1) as nat))
            },
            other => other,
        }
    }
}

/// One element, introduced by its type byte at `pos`.
pub open spec fn spec_inner(buf: Seq<u8>, pos: int) -> Step
    decreases buf.len() - pos, 1int,
{
    if pos < 0 || pos >= buf.len() {
        Step::Incomplete
    } else if buf[pos] == 42 {
        spec_array(buf, pos + 1)
    } else if buf[pos] == 36 {
        spec_bulk(buf, pos + 1)
    } else if buf[pos] == 43 {
        spec_simple(buf, pos + 1)
    } else if buf[pos] == 58 {
        spec_int(buf, pos + 1)
    } else {
        Step::Invalid(RespError::InternalError(INVALID_TYPE_BYTE))
    }
}

/// The value at the start of the buffer: an array, or else an inline command line.
pub open spec fn spec_parse(buf: Seq<u8>) -> Step {
    if buf.len() == 0 {
        Step::Incomplete
    } else if buf[0] == 42 {
        spec_array(buf, 1)
    } else {
        spec_simple(buf, 0)
    }
}

/// The buffer is one on which reading an integer line breaks down.
pub open spec fn resp_faults(buf: Seq<u8>) -> bool {
    spec_parse(buf) is Fault
}

/// The value that a parse denotes, its strings taken from the buffer.
pub open spec fn split_value(buf: Seq<u8>, s: Split) -> RedisValueView
    decreases s,
{
    match s {
        Split::Int(i) => RedisValueView::Integer(i),
        Split::SimpleString(a, b) => RedisValueView::SimpleString(buf.subrange(a, b)),
        Split::BulkString(a, b) => RedisValueView::BulkString(buf.subrange(a, b)),
        Split::Array(items) => RedisValueView::Array(
            Seq::new(
                items.len(),
                |i: int|
                    if 0 <= i < items.len() {
                        split_value(buf, items[i])
                    } else {
                        RedisValueView::Null
                    },
            ),
        ),
        Split::NullArray => RedisValueView::Null,
        Split::NullString => RedisValueView::Null,
    }
}

/// All string ranges of the parse lie inside a buffer of length `len`.
pub open spec fn split_fits(s: Split, len: int) -> bool
    decreases s,
{
    match s {
        Split::BulkString(a, b) => 0 <= a <= b <= len,
        Split::SimpleString(a, b) => 0 <= a <= b <= len,
        Split::Array(items) => forall|i: int|
            0 <= i < items.len() ==> split_fits(#[trigger] items[i], len),
        _ => true,
    }
}

// ------------------------------------------------------------------------------------------
// The encoding.
// ------------------------------------------------------------------------------------------

pub open spec fn crlf() -> Seq<u8> {
    seq![13u8, 10u8]
}

/// The bytes that the encoder writes for a value.
pub open spec fn spec_encode(v: RedisValueView) -> Seq<u8>
    decreases v,
{
    match v {
        RedisValueView::Integer(i) => seq![58u8] + display_int(i) + crlf(),
        RedisValueView::SimpleString(s) => seq![43u8] + s + crlf(),
        RedisValueView::BulkString(s) => seq![36u8] + decimal(s.len()) + crlf() + s + crlf(),
        RedisValueView::Array(a) => seq![42u8] + decimal(a.len()) + crlf() + encode_all(a),
        RedisValueView::Null => seq![36u8, 45u8, 49u8, 13u8, 10u8],
        RedisValueView::Error(e) => seq![45u8] + encode_utf8(e) + crlf(),
    }
}

/// The encodings of a sequence of values, one after the other.
pub open spec fn encode_all(items: Seq<RedisValueView>) -> Seq<u8>
    decreases items,
{
    if items.len() == 0 {
        Seq::empty()
    } else {
        spec_encode(items[0]) + encode_all(items.subrange(1, items.len() as int))
    }
}

// ------------------------------------------------------------------------------------------
// Lemmas on the grammar.
// ------------------------------------------------------------------------------------------

pub proof fn lemma_first_crlf_found(buf: Seq<u8>, pos: int, i: int)
    requires
        0 <= pos <= i,
        crlf_at(buf, i),
        forall|j: int| pos <= j < i ==> !crlf_at(buf, j),
    ensures
        first_crlf(buf, pos) == Some(i),
    decreases i - pos,
{
    if pos < i {
        lemma_first_crlf_found(buf, pos + 1, i);
    }
}

pub proof fn lemma_first_crlf_absent(buf: Seq<u8>, pos: int)
    requires
        0 <= pos,
        forall|j: int| pos <= j ==> !crlf_at(buf, j),
    ensures
        first_crlf(buf, pos) is None,
    decreases buf.len() - pos,
{
    if pos + 1 < buf.len() {
        lemma_first_crlf_absent(buf, pos + 1);
    }
}

pub proof fn lemma_first_crlf_props(buf: Seq<u8>, pos: int)
    ensures
        first_crlf(buf, pos) matches Some(i) ==> {
            &&& 0 <= pos <= i
            &&& i + 2 <= buf.len()
            &&& crlf_at(buf, i)
            &&& forall|j: int| pos <= j < i ==> !crlf_at(buf, j)
        },
    decreases buf.len() - pos,
{
    if pos >= 0 && pos + 1 < buf.len() && !crlf_at(buf, pos) {
        lemma_first_crlf_props(buf, pos + 1);
    }
}

pub proof fn lemma_no_overflow(body: Seq<u8>, m: int)
    requires
        0 <= m <= body.len(),
        all_digits(body.take(m)),
        digits_value(body.take(m)) <= i64::MAX,
        m == body.len() || !is_digit(body[m]),
    ensures
        !digit_overflow(body),
{
    assert forall|j: int|
        0 <= j <= body.len() && all_digits(#[trigger] body.take(j)) implies digits_value(
        body.take(j),
    ) <= i64::MAX by {
        if j > m {
            assert(body.take(j)[m] == body[m]);
        } else {
            assert(body.take(m).take(j) =~= body.take(j));
            lemma_digits_value_prefix_le(body.take(m), j);
        }
    }
}

pub proof fn lemma_int_bounds(buf: Seq<u8>, pos: int)
    ensures
        spec_int(buf, pos) matches Step::Done(e, s) ==> pos < e <= buf.len() && s is Int,
{
    lemma_first_crlf_props(buf, pos);
}

// ------------------------------------------------------------------------------------------
// Outside functions.
// ------------------------------------------------------------------------------------------

/// `memchr::memmem::find`: the index of the first occurrence of `needle` in `haystack`, or
/// `None` when it does not occur.
#[verifier::external_body]
fn memmem_find(haystack: &[u8], needle: &[u8]) -> (r: Option<usize>)
    ensures
        match r {
            Some(i) => {
                &&& i + needle@.len() <= haystack@.len()
                &&& haystack@.subrange(i as int, i + needle@.len()) == needle@
                &&& forall|j: int|
                    0 <= j < i ==> #[trigger] haystack@.subrange(j, j + needle@.len()) != needle@
            },
            None => forall|j: int|
                0 <= j && j + needle@.len() <= haystack@.len() ==> #[trigger] haystack@.subrange(
                    j,
                    j + needle@.len(),
                ) != needle@,
        },
{
    memchr::memmem::find(haystack, needle)
}

/// `memchr::memchr`: the index of the first occurrence of the byte `needle` in `haystack`, or
/// `None` when it does not occur.
#[verifier::external_body]
fn memchr_find(needle: u8, haystack: &[u8]) -> (r: Option<usize>)
    ensures
        match r {
            Some(i) => i < haystack@.len() && haystack@[i as int] == needle && forall|j: int|
                0 <= j < i ==> haystack@[j] != needle,
            None => !haystack@.contains(needle),
        },
{
    memchr::memchr(needle, haystack)
}

// ------------------------------------------------------------------------------------------
// The executable parser.
// ------------------------------------------------------------------------------------------

/// A range `start..end` of the buffer.
pub struct BufSplit(pub usize, pub usize);

impl BufSplit {
    fn slice_bytes<'a>(&self, buf: &'a [u8]) -> (r: &'a [u8])
        requires
            self.0 <= self.1 <= buf@.len(),
        ensures
            r@ == buf@.subrange(self.0 as int, self.1 as int),
    {
        vstd::slice::slice_subrange(buf, self.0, self.1)
    }

    fn split_bytes(&self, buf: &[u8]) -> (r: Vec<u8>)
        requires
            self.0 <= self.1 <= buf@.len(),
        ensures
            r@ == buf@.subrange(self.0 as int, self.1 as int),
    {
        vstd::slice::slice_to_vec(self.slice_bytes(buf))
    }
}

/// The parse of one element, as index ranges into the buffer.
pub enum RespBufSplit {
    BulkString(BufSplit),
    SimpleString(BufSplit),
    Array(Vec<RespBufSplit>),
    Int(i64),
    NullArray,
    NullString,
}

pub open spec fn split_view(s: RespBufSplit) -> Split
    decreases s,
{
    match s {
        RespBufSplit::BulkString(b) => Split::BulkString(b.0 as int, b.1 as int),
        RespBufSplit::SimpleString(b) => Split::SimpleString(b.0 as int, b.1 as int),
        RespBufSplit::Array(v) => Split::Array(
            Seq::new(
                v@.len(),
                |i: int|
                    if 0 <= i < v@.len() {
                        split_view(v@[i])
                    } else {
                        Split::NullArray
                    },
            ),
        ),
        RespBufSplit::Int(i) => Split::Int(i as int),
        RespBufSplit::NullArray => Split::NullArray,
        RespBufSplit::NullString => Split::NullString,
    }
}

enum Stop {
    Invalid(RespError),
    Fault,
}

type Parsed = Result<Option<(usize, RespBufSplit)>, Stop>;

spec fn parsed_matches(r: Parsed, step: Step) -> bool {
    match step {
        Step::Incomplete => r matches Ok(None),
        Step::Invalid(e) => r matches Err(Stop::Invalid(e2)) && e2 == e,
        Step::Fault => r matches Err(Stop::Fault),
        Step::Done(n, s) => r matches Ok(Some((m, v))) && m == n && split_view(v) == s,
    }
}

spec fn parsed_bounded(r: Parsed, pos: int, len: int) -> bool {
    r matches Ok(Some((m, v))) ==> pos < m <= len && split_fits(split_view(v), len)
}

/// Finds the CRLF that ends the line starting at `pos`; `None` when more bytes are needed.
fn word(buf: &[u8], pos: usize) -> (r: Option<(usize, BufSplit)>)
    ensures
        match first_crlf(buf@, pos as int) {
            Some(i) => r matches Some((e, sp)) && e == i + 2 && sp.0 == pos && sp.1 == i,
            None => r is None,
        },
{
    if pos >= buf.len() {
        return None;
    }
    let haystack = vstd::slice::slice_subrange(buf, pos, buf.len());
    let crlf_bytes: [u8; 2] = [13u8, 10u8];
    let needle = vstd::array::array_as_slice(&crlf_bytes);
    assert(needle@ =~= seq![13u8, 10u8]);
    match memmem_find(haystack, needle) {
        Some(idx) => {
            proof {
                let i = pos + idx;
                assert(haystack@.subrange(idx as int, idx + 2) =~= seq![13u8, 10u8]);
                assert(haystack@.subrange(idx as int, idx + 2)[0] == buf@[i]);
                assert(haystack@.subrange(idx as int, idx + 2)[1] == buf@[i + 1]);
                assert forall|j: int| pos <= j < i implies !crlf_at(buf@, j) by {
                    if crlf_at(buf@, j) {
                        assert(haystack@.subrange(j - pos, j - pos + 2) =~= needle@);
                    }
                }
                lemma_first_crlf_found(buf@, pos as int, i);
            }
            Some((pos + idx + 2, BufSplit(pos, pos + idx)))
        },
        None => {
            proof {
                assert forall|j: int| pos <= j implies !crlf_at(buf@, j) by {
                    if crlf_at(buf@, j) {
                        assert(haystack@.subrange(j - pos, j - pos + 2) =~= needle@);
                    }
                }
                lemma_first_crlf_absent(buf@, pos as int);
            }
            None
        },
    }
}

fn integer(buf: &[u8], pos: usize) -> (r: Parsed)
    ensures
        parsed_matches(r, spec_int(buf@, pos as int)),
        parsed_bounded(r, pos as int, buf@.len() as int),
{
    proof {
        lemma_first_crlf_props(buf@, pos as int);
    }
    let (end_position, split) = match word(buf, pos) {
        Some(w) => w,
        None => return Ok(None),
    };
    let bytes = split.slice_bytes(buf);
    let ghost line = buf@.subrange(pos as int, split.1 as int);
    assert(bytes@ == line);
    if bytes.len() == 0 {
        return Err(Stop::Fault);
    }
    let negative = bytes[0] == 45;
    let start: usize = if negative {
        1
    } else {
        0
    };
    let ghost body = int_digits(line);
    assert(body =~= line.subrange(start as int, line.len() as int));
    let mut ret: i64 = 0;
    let mut k: usize = start;
    while k < bytes.len()
        invariant
            start <= k <= bytes@.len(),
            bytes@ == line,
            first_crlf(buf@, pos as int) == Some(split.1 as int),
            line == buf@.subrange(pos as int, split.1 as int),
            end_position == split.1 + 2,
            pos < end_position <= buf@.len(),
            line.len() > 0,
            negative == (line[0] == 45),
            start == (if negative {
                1usize
            } else {
                0usize
            }),
            body == int_digits(line),
            body =~= line.subrange(start as int, line.len() as int),
            all_digits(body.take(k - start)),
            ret as nat == digits_value(body.take(k - start)),
            0 <= ret,
        decreases bytes@.len() - k,
    {
        let b = bytes[k];
        assert(body[k - start] == b);
        if b < 48 || b > 57 {
            proof {
                lemma_no_overflow(body, k - start);
                assert(!all_digits(body));
            }
            return Err(Stop::Invalid(RespError::InvalidInt));
        }
        let d = (b - 48) as i64;
        assert(body.take(k - start + 1) =~= body.take(k - start).push(b));
        proof {
            lemma_digits_value_push(body.take(k - start), b);
        }
        if ret > (i64::MAX - d) / 10 {
            proof {
                assert(ret * 10 + d > i64::MAX) by (nonlinear_arith)
                    requires
                        ret > (i64::MAX - d) / 10,
                        0 <= d <= 9,
                ;
                assert(all_digits(body.take(k - start + 1)));
                assert(digit_overflow(body));
            }
            return Err(Stop::Fault);
        }
        assert(ret * 10 + d <= i64::MAX) by (nonlinear_arith)
            requires
                ret <= (i64::MAX - d) / 10,
                0 <= ret,
                0 <= d <= 9,
        ;
        ret = ret * 10 + d;
        k += 1;
    }
    proof {
        assert(body.take(k - start) =~= body);
        lemma_no_overflow(body, k - start);
    }
    let value = if negative {
        -ret
    } else {
        ret
    };
    Ok(Some((end_position, RespBufSplit::Int(value))))
}

fn simple_string(buf: &[u8], pos: usize) -> (r: Parsed)
    ensures
        parsed_matches(r, spec_simple(buf@, pos as int)),
        parsed_bounded(r, pos as int, buf@.len() as int),
{
    proof {
        lemma_first_crlf_props(buf@, pos as int);
    }
    let (end_position, split) = match word(buf, pos) {
        Some(w) => w,
        None => return Ok(None),
    };
    let bytes = split.slice_bytes(buf);
    if memchr_find(13u8, bytes).is_some() || memchr_find(10u8, bytes).is_some() {
        return Err(Stop::Invalid(RespError::InvalidSimpleString(SIMPLE_STRING_HAS_CRLF)));
    }
    Ok(Some((end_position, RespBufSplit::SimpleString(split))))
}

fn bulk_string(buf: &[u8], pos: usize) -> (r: Parsed)
    ensures
        parsed_matches(r, spec_bulk(buf@, pos as int)),
        parsed_bounded(r, pos as int, buf@.len() as int),
{
    proof {
        lemma_int_bounds(buf@, pos as int);
    }
    let (string_start, string_length) = match integer(buf, pos) {
        Ok(Some(x)) => x,
        Ok(None) => return Ok(None),
        Err(e) => return Err(e),
    };
    let string_length = match string_length {
        RespBufSplit::Int(n) => n,
        _ => return Err(Stop::Invalid(RespError::InternalError(STRING_LENGTH_NOT_INT))),
    };
    if string_length < -1 {
        return Err(Stop::Invalid(RespError::InvalidBulkString(BULK_LENGTH_BELOW_NULL)));
    }
    if string_length == -1 {
        return Ok(Some((string_start, RespBufSplit::NullString)));
    }
    let crlf_position: i128 = string_start as i128 + string_length as i128;
    if crlf_position + 2 > buf.len() as i128 {
        return Ok(None);
    }
    let c = crlf_position as usize;
    if buf[c] != 13 || buf[c + 1] != 10 {
        return Err(Stop::Invalid(RespError::InvalidBulkString(BULK_MISSING_CRLF)));
    }
    Ok(Some((c + 2, RespBufSplit::BulkString(BufSplit(string_start, c)))))
}

fn array(buf: &[u8], pos: usize) -> (r: Parsed)
    ensures
        parsed_matches(r, spec_array(buf@, pos as int)),
        parsed_bounded(r, pos as int, buf@.len() as int),
    decreases buf@.len() - pos, 0int,
{
    proof {
        lemma_int_bounds(buf@, pos as int);
    }
    let (array_start, array_length) = match integer(buf, pos) {
        Ok(Some(x)) => x,
        Ok(None) => return Ok(None),
        Err(e) => return Err(e),
    };
    let array_length = match array_length {
        RespBufSplit::Int(n) => n,
        _ => return Err(Stop::Invalid(RespError::InternalError(ARRAY_LENGTH_NOT_INT))),
    };
    if array_length < -1 {
        return Err(Stop::Invalid(RespError::InvalidArray(ARRAY_LENGTH_BELOW_NULL)));
    }
    if array_length == -1 {
        return Ok(Some((array_start, RespBufSplit::NullArray)));
    }
    let count = array_length as u64;
    let mut ret: Vec<RespBufSplit> = Vec::new();
    let mut p = array_start;
    let mut i: u64 = 0;
    let ghost total = spec_elems(buf@, array_start as int, count as nat);
    assert(spec_array(buf@, pos as int) == total);
    while i < count
        invariant
            pos < array_start <= p <= buf@.len(),
            i <= count,
            spec_array(buf@, pos as int) == total,
            total == spec_elems(buf@, array_start as int, count as nat),
            total == prepend(
                Seq::new(ret@.len(), |j: int| split_view(ret@[j])),
                spec_elems(buf@, p as int, (count - i) as nat),
            ),
            forall|j: int| 0 <= j < ret@.len() ==> split_fits(#[trigger] split_view(ret@[j]), buf@.len() as int),
        decreases count - i,
    {
        let ghost items = Seq::new(ret@.len(), |j: int| split_view(ret@[j]));
        let r = inner_parse(buf, p);
        let (new_pos, value) = match r {
            Ok(Some(x)) => x,
            Ok(None) => return Ok(None),
            Err(e) => return Err(e),
        };
        proof {
            let rest = spec_elems(buf@, new_pos as int, (count - i - 1) as nat);
            assert(spec_elems(buf@, p as int, (count - i) as nat) == prepend(seq![split_view(value)], rest));
            let items2 = items.push(split_view(value));
            assert(items + seq![split_view(value)] =~= items2);
            match rest {
                Step::Done(q, Split::Array(rs)) => {
                    assert(items + (seq![split_view(value)] + rs) =~= items2 + rs);
                },
                _ => {},
            }
        }
        ret.push(value);
        assert(Seq::new(ret@.len(), |j: int| split_view(ret@[j])) =~= items.push(split_view(value)));
        p = new_pos;
        i += 1;
    }
    proof {
        let items = Seq::new(ret@.len(), |j: int| split_view(ret@[j]));
        assert(items + Seq::<Split>::empty() =~= items);
        assert(Seq::new(
            ret@.len(),
            |j: int|
                if 0 <= j < ret@.len() {
                    split_view(ret@[j])
                } else {
                    Split::NullArray
                },
        ) =~= items);
        let whole = split_view(RespBufSplit::Array(ret));
        assert(whole->Array_0 =~= items);
        assert(spec_elems(buf@, p as int, 0) == Step::Done(p as int, Split::Array(Seq::empty())));
        assert forall|j: int| 0 <= j < items.len() implies split_fits(#[trigger] items[j], buf@.len() as int) by {
            assert(items[j] == split_view(ret@[j]));
        }
    }
    Ok(Some((p, RespBufSplit::Array(ret))))
}

fn inner_parse(buf: &[u8], pos: usize) -> (r: Parsed)
    ensures
        parsed_matches(r, spec_inner(buf@, pos as int)),
        parsed_bounded(r, pos as int, buf@.len() as int),
    decreases buf@.len() - pos, 1int,
{
    if pos >= buf.len() {
        return Ok(None);
    }
    let b = buf[pos];
    if b == 42 {
        array(buf, pos + 1)
    } else if b == 36 {
        bulk_string(buf, pos + 1)
    } else if b == 43 {
        simple_string(buf, pos + 1)
    } else if b == 58 {
        integer(buf, pos + 1)
    } else {
        Err(Stop::Invalid(RespError::InternalError(INVALID_TYPE_BYTE)))
    }
}

fn parse(buf: &[u8]) -> (r: Parsed)
    ensures
        parsed_matches(r, spec_parse(buf@)),
        parsed_bounded(r, 0, buf@.len() as int),
{
    if buf.len() == 0 {
        return Ok(None);
    }
    if buf[0] == 42 {
        array(buf, 1)
    } else {
        simple_string(buf, 0)
    }
}


impl RespBufSplit {
    /// The value that this parse denotes, its strings copied out of the buffer.
    fn redis_value(&self, buf: &[u8]) -> (r: RedisValue)
        requires
            split_fits(split_view(*self), buf@.len() as int),
        ensures
            r@ == split_value(buf@, split_view(*self)),
        decreases self,
    {
        match self {
            RespBufSplit::Int(i) => RedisValue::Integer(*i),
            RespBufSplit::SimpleString(split) => RedisValue::SimpleString(split.split_bytes(buf)),
            RespBufSplit::BulkString(split) => RedisValue::BulkString(split.split_bytes(buf)),
            RespBufSplit::Array(values) => {
                let ghost items = split_view(*self)->Array_0;
                let mut out: Vec<RedisValue> = Vec::new();
                let mut i: usize = 0;
                while i < values.len()
                    invariant
                        *self == RespBufSplit::Array(*values),
                        items == split_view(*self)->Array_0,
                        items.len() == values@.len(),
                        forall|j: int| 0 <= j < items.len() ==> #[trigger] items[j] == split_view(values@[j]),
                        split_fits(split_view(*self), buf@.len() as int),
                        i <= values@.len(),
                        out@.len() == i,
                        forall|j: int|
                            0 <= j < i ==> #[trigger] value_view(out@[j]) == split_value(
                                buf@,
                                items[j],
                            ),
                    decreases values@.len() - i,
                {
                    proof {
                        assert(decreases_to!(*self => (*self)->Array_0));
                        assert(decreases_to!((*self)->Array_0 => values@));
                        assert(decreases_to!(values@ => values@[i as int]));
                        assert(split_fits(items[i as int], buf@.len() as int));
                    }
                    let v = values[i].redis_value(buf);
                    out.push(v);
                    i += 1;
                }
                proof {
                    let whole = value_view(RedisValue::Array(out));
                    let expected = split_value(buf@, split_view(*self));
                    assert(whole->Array_0.len() == expected->Array_0.len());
                    assert forall|j: int| 0 <= j < out@.len() implies whole->Array_0[j]
                        == expected->Array_0[j] by {
                        assert(value_view(out@[j]) == split_value(buf@, items[j]));
                    }
                    assert(whole->Array_0 =~= expected->Array_0);
                }
                RedisValue::Array(out)
            },
            RespBufSplit::NullArray => RedisValue::Null,
            RespBufSplit::NullString => RedisValue::Null,
        }
    }
}

/// The protocol codec: decodes requests from a growing buffer and encodes replies.
pub struct RespParser;

impl Default for RespParser {
    fn default() -> (r: RespParser)
        ensures
            r == RespParser,
    {
        RespParser
    }
}

/// Whether reading the buffer would meet an integer line that cannot be read (an empty line,
/// or digits worth more than `i64::MAX`).
pub fn faults(buf: &[u8]) -> (r: bool)
    ensures
        r == resp_faults(buf@),
{
    match parse(buf) {
        Err(Stop::Fault) => true,
        _ => false,
    }
}

impl RespParser {
    /// Decodes the value at the start of `src`: `Ok(None)` while more bytes are needed, or the
    /// number of bytes the value takes and the value.
    pub fn decode(&mut self, src: &[u8]) -> (r: Result<Option<(usize, RedisValue)>, RespError>)
        requires
            !resp_faults(src@),
        ensures
            match spec_parse(src@) {
                Step::Incomplete => r matches Ok(None),
                Step::Invalid(e) => r matches Err(e2) && e2 == e,
                Step::Done(n, s) => r matches Ok(Some((m, v))) && m == n && m <= src@.len()
                    && v@ == split_value(src@, s),
                Step::Fault => false,
            },
    {
        match parse(src) {
            Ok(None) => Ok(None),
            Ok(Some((pos, value))) => {
                let v = value.redis_value(src);
                Ok(Some((pos, v)))
            },
            Err(Stop::Invalid(e)) => Err(e),
            Err(Stop::Fault) => Ok(None),
        }
    }

    /// Appends the encoding of `item` to `dst`.
    pub fn encode(&mut self, item: RedisValue, dst: &mut Vec<u8>) -> (r: Result<(), std::io::Error>)
        ensures
            r is Ok,
            final(dst)@ == old(dst)@ + spec_encode(item@),
    {
        encode_value(&item, dst);
        Ok(())
    }
}

pub proof fn lemma_encode_all_push(s: Seq<RedisValueView>, x: RedisValueView)
    ensures
        encode_all(s.push(x)) == encode_all(s) + spec_encode(x),
    decreases s.len(),
{
    if s.len() == 0 {
        assert(s.push(x).subrange(1, 1) =~= Seq::<RedisValueView>::empty());
        assert(encode_all(Seq::<RedisValueView>::empty()) == Seq::<u8>::empty());
        assert(encode_all(s.push(x)) =~= spec_encode(x));
        assert(encode_all(s) =~= Seq::<u8>::empty());
    } else {
        let rest = s.subrange(1, s.len() as int);
        lemma_encode_all_push(rest, x);
        assert(s.push(x).subrange(1, s.len() as int + 1) =~= rest.push(x));
        assert(encode_all(s.push(x)) =~= spec_encode(s[0]) + encode_all(rest.push(x)));
    }
}

fn extend_bytes(dst: &mut Vec<u8>, src: &[u8])
    ensures
        final(dst)@ == old(dst)@ + src@,
{
    let mut i: usize = 0;
    while i < src.len()
        invariant
            i <= src@.len(),
            dst@ == old(dst)@ + src@.take(i as int),
        decreases src@.len() - i,
    {
        dst.push(src[i]);
        i += 1;
        assert(src@.take(i as int) =~= src@.take(i - 1).push(src@[i - 1]));
        assert(dst@ =~= old(dst)@ + src@.take(i as int));
    }
    assert(src@.take(i as int) =~= src@);
}

fn push_crlf(dst: &mut Vec<u8>)
    ensures
        final(dst)@ == old(dst)@ + crlf(),
{
    dst.push(13u8);
    dst.push(10u8);
    assert(final(dst)@ =~= old(dst)@ + crlf());
}

fn encode_value(item: &RedisValue, dst: &mut Vec<u8>)
    ensures
        final(dst)@ == old(dst)@ + spec_encode(item@),
    decreases item,
{
    match item {
        RedisValue::Integer(i) => {
            dst.push(58u8);
            let digits = render_i64(*i);
            extend_bytes(dst, digits.as_slice());
            push_crlf(dst);
            assert(dst@ =~= old(dst)@ + spec_encode(item@));
        },
        RedisValue::SimpleString(s) => {
            dst.push(43u8);
            extend_bytes(dst, s.as_slice());
            push_crlf(dst);
            assert(dst@ =~= old(dst)@ + spec_encode(item@));
        },
        RedisValue::BulkString(s) => {
            dst.push(36u8);
            let digits = render_u64(s.len() as u64);
            extend_bytes(dst, digits.as_slice());
            push_crlf(dst);
            extend_bytes(dst, s.as_slice());
            push_crlf(dst);
            assert(dst@ =~= old(dst)@ + spec_encode(item@));
        },
        RedisValue::Array(a) => {
            dst.push(42u8);
            let digits = render_u64(a.len() as u64);
            extend_bytes(dst, digits.as_slice());
            push_crlf(dst);
            let ghost header = dst@;
            let ghost items = item@->Array_0;
            assert(header =~= old(dst)@ + (seq![42u8] + decimal(items.len()) + crlf()));
            let mut i: usize = 0;
            while i < a.len()
                invariant
                    *item == RedisValue::Array(*a),
                    items == item@->Array_0,
                    items.len() == a@.len(),
                    forall|j: int| 0 <= j < items.len() ==> #[trigger] items[j] == value_view(a@[j]),
                    i <= a@.len(),
                    dst@ == header + encode_all(items.take(i as int)),
                decreases a@.len() - i,
            {
                proof {
                    assert(decreases_to!(*item => (*item)->Array_0));
                    assert(decreases_to!((*item)->Array_0 => a@));
                    assert(decreases_to!(a@ => a@[i as int]));
                    assert(items.take(i + 1) =~= items.take(i as int).push(items[i as int]));
                    lemma_encode_all_push(items.take(i as int), items[i as int]);
                }
                encode_value(&a[i], dst);
                i += 1;
                assert(dst@ =~= header + encode_all(items.take(i as int)));
            }
            assert(items.take(i as int) =~= items);
            assert(dst@ =~= old(dst)@ + spec_encode(item@));
        },
        RedisValue::Null => {
            dst.push(36u8);
            dst.push(45u8);
            dst.push(49u8);
            push_crlf(dst);
            assert(dst@ =~= old(dst)@ + spec_encode(item@));
        },
        RedisValue::Error(e) => {
            dst.push(45u8);
            extend_bytes(dst, e.as_str().as_bytes());
            push_crlf(dst);
            assert(dst@ =~= old(dst)@ + spec_encode(item@));
        },
    }
}

} // verus!
