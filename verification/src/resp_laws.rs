//! Properties of the protocol's grammar that hold across calls of the codec: what the encoder
//! writes, the decoder reads back; and once a buffer decides its first value, bytes that arrive
//! later do not change that decision.

use vstd::prelude::*;
use crate::numeric::{all_digits, decimal, digits_value, display_int, is_digit, lemma_decimal};
use crate::resp::{
    crlf, crlf_at, encode_all, first_crlf, int_digits, int_line, lemma_first_crlf_found,
    lemma_first_crlf_props, lemma_int_bounds, lemma_no_overflow, prepend, spec_array, spec_bulk,
    spec_elems, spec_encode, spec_inner, spec_int, spec_parse, spec_simple, split_value, IntLine,
    RedisValueView, Split, Step,
};

verus! {

// ------------------------------------------------------------------------------------------
// Positions stay inside the buffer.
// ------------------------------------------------------------------------------------------

proof fn lemma_array_bounds(buf: Seq<u8>, pos: int)
    requires
        0 <= pos,
    ensures
        spec_array(buf, pos) matches Step::Done(q, _) ==> pos < q <= buf.len(),
    decreases buf.len() - pos, 0int,
{
    lemma_int_bounds(buf, pos);
    if let Step::Done(start, Split::Int(n)) = spec_int(buf, pos) {
        if n >= 0 && start > pos && start <= buf.len() {
            lemma_elems_bounds(buf, start, n as nat);
        }
    }
}

proof fn lemma_elems_bounds(buf: Seq<u8>, pos: int, count: nat)
    requires
        0 <= pos <= buf.len(),
    ensures
        spec_elems(buf, pos, count) matches Step::Done(q, _) ==> pos <= q <= buf.len(),
    decreases buf.len() - pos, 2int,
{
    if count > 0 {
        lemma_inner_bounds(buf, pos);
        if let Step::Done(p1, v) = spec_inner(buf, pos) {
            if p1 > pos && p1 <= buf.len() {
                lemma_elems_bounds(buf, p1, (count - 1) as nat);
            }
        }
    }
}

proof fn lemma_inner_bounds(buf: Seq<u8>, pos: int)
    requires
        0 <= pos,
    ensures
        spec_inner(buf, pos) matches Step::Done(q, _) ==> pos < q <= buf.len(),
    decreases buf.len() - pos, 1int,
{
    if pos < buf.len() {
        lemma_int_bounds(buf, pos + 1);
        lemma_first_crlf_props(buf, pos + 1);
        if buf[pos] == 42 {
            lemma_array_bounds(buf, pos + 1);
        }
    }
}

// ------------------------------------------------------------------------------------------
// Bytes appended after a decided value do not change it.
// ------------------------------------------------------------------------------------------

proof fn lemma_first_crlf_extend(buf: Seq<u8>, extra: Seq<u8>, pos: int)
    requires
        first_crlf(buf, pos) is Some,
    ensures
        first_crlf(buf + extra, pos) == first_crlf(buf, pos),
    decreases buf.len() - pos,
{
    let big = buf + extra;
    if pos >= 0 && pos + 1 < buf.len() {
        assert(big[pos] == buf[pos] && big[pos + 1] == buf[pos + 1]);
        if !crlf_at(buf, pos) {
            lemma_first_crlf_extend(buf, extra, pos + 1);
        }
    }
}

proof fn lemma_int_extend(buf: Seq<u8>, extra: Seq<u8>, pos: int)
    requires
        !(spec_int(buf, pos) is Incomplete),
    ensures
        spec_int(buf + extra, pos) == spec_int(buf, pos),
{
    lemma_first_crlf_extend(buf, extra, pos);
    lemma_first_crlf_props(buf, pos);
    let i = first_crlf(buf, pos)->0;
    assert((buf + extra).subrange(pos, i) =~= buf.subrange(pos, i));
}

proof fn lemma_simple_extend(buf: Seq<u8>, extra: Seq<u8>, pos: int)
    requires
        !(spec_simple(buf, pos) is Incomplete),
    ensures
        spec_simple(buf + extra, pos) == spec_simple(buf, pos),
{
    lemma_first_crlf_extend(buf, extra, pos);
    lemma_first_crlf_props(buf, pos);
    let i = first_crlf(buf, pos)->0;
    assert((buf + extra).subrange(pos, i) =~= buf.subrange(pos, i));
}

proof fn lemma_bulk_extend(buf: Seq<u8>, extra: Seq<u8>, pos: int)
    requires
        0 <= pos,
        !(spec_bulk(buf, pos) is Incomplete),
    ensures
        spec_bulk(buf + extra, pos) == spec_bulk(buf, pos),
{
    lemma_int_extend(buf, extra, pos);
    lemma_int_bounds(buf, pos);
    let big = buf + extra;
    if let Step::Done(start, Split::Int(n)) = spec_int(buf, pos) {
        if n >= 0 && start + n + 2 <= buf.len() {
            assert(big[start + n] == buf[start + n]);
            assert(big[start + n + 1] == buf[start + n + 1]);
        }
    }
}

proof fn lemma_array_extend(buf: Seq<u8>, extra: Seq<u8>, pos: int)
    requires
        0 <= pos,
        !(spec_array(buf, pos) is Incomplete),
    ensures
        spec_array(buf + extra, pos) == spec_array(buf, pos),
    decreases buf.len() - pos, 0int,
{
    lemma_int_extend(buf, extra, pos);
    lemma_int_bounds(buf, pos);
    if let Step::Done(start, Split::Int(n)) = spec_int(buf, pos) {
        if n >= 0 {
            lemma_elems_extend(buf, extra, start, n as nat);
        }
    }
}

proof fn lemma_elems_extend(buf: Seq<u8>, extra: Seq<u8>, pos: int, count: nat)
    requires
        0 <= pos <= buf.len(),
        !(spec_elems(buf, pos, count) is Incomplete),
    ensures
        spec_elems(buf + extra, pos, count) == spec_elems(buf, pos, count),
    decreases buf.len() - pos, 2int,
{
    if count > 0 {
        lemma_inner_bounds(buf, pos);
        if !(spec_inner(buf, pos) is Incomplete) {
            lemma_inner_extend(buf, extra, pos);
        }
        if let Step::Done(p1, v) = spec_inner(buf, pos) {
            let rest = spec_elems(buf, p1, (count - 1) as nat);
            if !(rest is Incomplete) {
                lemma_elems_extend(buf, extra, p1, (count - 1) as nat);
            }
        }
    }
}

proof fn lemma_inner_extend(buf: Seq<u8>, extra: Seq<u8>, pos: int)
    requires
        0 <= pos,
        !(spec_inner(buf, pos) is Incomplete),
    ensures
        spec_inner(buf + extra, pos) == spec_inner(buf, pos),
    decreases buf.len() - pos, 1int,
{
    let big = buf + extra;
    assert(big[pos] == buf[pos]);
    if buf[pos] == 42 {
        lemma_array_extend(buf, extra, pos + 1);
    } else if buf[pos] == 36 {
        lemma_bulk_extend(buf, extra, pos + 1);
    } else if buf[pos] == 43 {
        lemma_simple_extend(buf, extra, pos + 1);
    } else if buf[pos] == 58 {
        lemma_int_extend(buf, extra, pos + 1);
    }
}

/// Once the bytes at hand decide the first value (a value, a rejection, or an unreadable
/// integer line), bytes that arrive afterwards leave that outcome unchanged: the decoder may
/// act on a partial stream.
pub proof fn law_decided_prefix_is_stable(buf: Seq<u8>, extra: Seq<u8>)
    requires
        !(spec_parse(buf) is Incomplete),
    ensures
        spec_parse(buf + extra) == spec_parse(buf),
{
    let big = buf + extra;
    assert(big[0] == buf[0]);
    if buf[0] == 42 {
        lemma_array_extend(buf, extra, 1);
    } else {
        lemma_simple_extend(buf, extra, 0);
    }
}

/// A decoded value never extends past the bytes at hand.
pub proof fn law_decoded_within_buffer(buf: Seq<u8>)
    ensures
        spec_parse(buf) matches Step::Done(n, _) ==> 0 < n <= buf.len(),
{
    if buf.len() > 0 {
        if buf[0] == 42 {
            lemma_array_bounds(buf, 1);
        } else {
            lemma_first_crlf_props(buf, 0);
        }
    }
}

// ------------------------------------------------------------------------------------------
// What the encoder writes, the decoder reads back.
// ------------------------------------------------------------------------------------------

/// The values whose encoding the decoder reads back as they were, when they stand inside an
/// array: integers above `i64::MIN` (whose magnitude the decoder cannot hold), strings whose
/// length fits `i64`, simple strings without CR or LF, nulls, and arrays of such values.
/// Errors are encoded with a leading `-`, which the decoder does not accept inside an array.
pub open spec fn wire_encodable(v: RedisValueView) -> bool
    decreases v,
{
    match v {
        RedisValueView::BulkString(s) => s.len() <= i64::MAX,
        RedisValueView::SimpleString(s) => !s.contains(13u8) && !s.contains(10u8),
        RedisValueView::Null => true,
        RedisValueView::Array(a) => a.len() <= i64::MAX && forall|i: int|
            0 <= i < a.len() ==> wire_encodable(#[trigger] a[i]),
        RedisValueView::Integer(i) => i64::MIN < i <= i64::MAX,
        RedisValueView::Error(_) => false,
    }
}

proof fn lemma_line_end(buf: Seq<u8>, p: int, text: Seq<u8>)
    requires
        0 <= p,
        p + text.len() + 2 <= buf.len(),
        buf.subrange(p, p + text.len() + 2) == text + crlf(),
        !text.contains(13u8),
    ensures
        first_crlf(buf, p) == Some(p + text.len()),
{
    let l = text.len() as int;
    assert(buf[p + l] == (text + crlf())[l]);
    assert(buf[p + l + 1] == (text + crlf())[l + 1]);
    assert forall|j: int| p <= j < p + l implies !crlf_at(buf, j) by {
        assert(buf[j] == (text + crlf())[j - p]);
        assert(buf[j] == text[j - p]);
    }
    lemma_first_crlf_found(buf, p, p + l);
}

proof fn lemma_digits_no_cr(s: Seq<u8>)
    requires
        all_digits(s),
    ensures
        !s.contains(13u8),
{
    if s.contains(13u8) {
        let i = choose|i: int| 0 <= i < s.len() && s[i] == 13u8;
        assert(is_digit(s[i]));
    }
}

proof fn lemma_int_text(buf: Seq<u8>, p: int, text: Seq<u8>, value: int)
    requires
        0 <= p,
        p + text.len() + 2 <= buf.len(),
        buf.subrange(p, p + text.len() + 2) == text + crlf(),
        !text.contains(13u8),
        int_line(text) == IntLine::Value(value),
    ensures
        spec_int(buf, p) == Step::Done(p + text.len() + 2, Split::Int(value)),
{
    lemma_line_end(buf, p, text);
    assert(buf.subrange(p, p + text.len()) =~= text) by {
        assert forall|k: int| 0 <= k < text.len() implies buf.subrange(p, p + text.len())[k]
            == text[k] by {
            assert(buf[p + k] == (text + crlf())[k]);
        }
    }
}

proof fn lemma_decimal_line(n: nat)
    requires
        n <= i64::MAX,
    ensures
        int_line(decimal(n)) == IntLine::Value(n as int),
        !decimal(n).contains(13u8),
{
    lemma_decimal(n);
    let d = decimal(n);
    assert(is_digit(d[0]));
    assert(int_digits(d) == d);
    assert(d.take(d.len() as int) =~= d);
    lemma_no_overflow(d, d.len() as int);
    lemma_digits_no_cr(d);
}

proof fn lemma_display_line(i: int)
    requires
        i64::MIN < i <= i64::MAX,
    ensures
        int_line(display_int(i)) == IntLine::Value(i),
        !display_int(i).contains(13u8),
{
    if i >= 0 {
        lemma_decimal_line(i as nat);
    } else {
        let n = (-i) as nat;
        let d = decimal(n);
        let t = display_int(i);
        lemma_decimal(n);
        assert(int_digits(t) =~= d);
        assert(d.take(d.len() as int) =~= d);
        lemma_no_overflow(d, d.len() as int);
        lemma_digits_no_cr(d);
        if t.contains(13u8) {
            let k = choose|k: int| 0 <= k < t.len() && t[k] == 13u8;
            assert(k > 0);
            assert(d[k - 1] == t[k]);
        }
    }
}

proof fn lemma_integer_roundtrip(buf: Seq<u8>, p: int, i: int)
    requires
        0 <= p,
        i64::MIN < i <= i64::MAX,
        p + spec_encode(RedisValueView::Integer(i)).len() <= buf.len(),
        buf.subrange(p, p + spec_encode(RedisValueView::Integer(i)).len()) == spec_encode(
            RedisValueView::Integer(i),
        ),
    ensures
        spec_inner(buf, p) matches Step::Done(q, sp) && q == p + spec_encode(
            RedisValueView::Integer(i),
        ).len() && split_value(buf, sp) == RedisValueView::Integer(i),
{
    let e = spec_encode(RedisValueView::Integer(i));
    let t = display_int(i);
    lemma_display_line(i);
    assert(buf[p] == buf.subrange(p, p + e.len())[0]);
    assert(e.subrange(1, 1 + t.len() as int + 2) =~= t + crlf());
    lemma_piece(buf, p, e, 1, t + crlf());
    lemma_int_text(buf, p + 1, t, i);
}

proof fn lemma_minus_one_line()
    ensures
        int_line(seq![45u8, 49u8]) == IntLine::Value(-1),
        !seq![45u8, 49u8].contains(13u8),
{
    let line = seq![45u8, 49u8];
    let body = int_digits(line);
    assert(body =~= seq![49u8]);
    assert(body.drop_last() =~= Seq::<u8>::empty());
    assert(digits_value(Seq::<u8>::empty()) == 0);
    assert(digits_value(body) == 1);
    assert(all_digits(body));
    assert(body.take(1) =~= body);
    lemma_no_overflow(body, 1);
    if line.contains(13u8) {
        let i = choose|i: int| 0 <= i < line.len() && line[i] == 13u8;
        assert(i == 0 || i == 1);
    }
}

proof fn lemma_encode_nonempty(v: RedisValueView)
    ensures
        spec_encode(v).len() >= 1,
{
}

proof fn lemma_encode_all_first(items: Seq<RedisValueView>)
    requires
        items.len() > 0,
    ensures
        encode_all(items) == spec_encode(items[0]) + encode_all(items.subrange(1, items.len() as int)),
{
}

/// A piece of an encoding that the buffer holds at `p` stands in the buffer at the matching place.
proof fn lemma_piece(buf: Seq<u8>, p: int, e: Seq<u8>, a: int, t: Seq<u8>)
    requires
        0 <= p,
        p + e.len() <= buf.len(),
        buf.subrange(p, p + e.len()) == e,
        0 <= a,
        a + t.len() <= e.len(),
        e.subrange(a, a + t.len()) == t,
    ensures
        buf.subrange(p + a, p + a + t.len()) == t,
{
    assert forall|k: int| 0 <= k < t.len() implies buf.subrange(p + a, p + a + t.len())[k] == t[k] by {
        assert(buf[p + a + k] == buf.subrange(p, p + e.len())[a + k]);
        assert(t[k] == e.subrange(a, a + t.len())[k]);
    }
    assert(buf.subrange(p + a, p + a + t.len()) =~= t);
}

proof fn lemma_bulk_roundtrip(buf: Seq<u8>, p: int, s: Seq<u8>)
    requires
        0 <= p,
        s.len() <= i64::MAX,
        p + spec_encode(RedisValueView::BulkString(s)).len() <= buf.len(),
        buf.subrange(p, p + spec_encode(RedisValueView::BulkString(s)).len()) == spec_encode(
            RedisValueView::BulkString(s),
        ),
    ensures
        spec_inner(buf, p) matches Step::Done(q, sp) && q == p + spec_encode(
            RedisValueView::BulkString(s),
        ).len() && split_value(buf, sp) == RedisValueView::BulkString(s),
{
    let e = spec_encode(RedisValueView::BulkString(s));
    let d = decimal(s.len());
    lemma_decimal_line(s.len());
    assert(buf[p] == buf.subrange(p, p + e.len())[0]);
    assert(e.subrange(1, 1 + d.len() as int + 2) =~= d + crlf());
    lemma_piece(buf, p, e, 1, d + crlf());
    lemma_int_text(buf, p + 1, d, s.len() as int);
    let start = p + 1 + d.len() + 2;
    let c = start + s.len();
    assert(e.subrange(start - p, c - p) =~= s);
    lemma_piece(buf, p, e, start - p, s);
    assert(e.subrange(c - p, c - p + 2) =~= crlf());
    lemma_piece(buf, p, e, c - p, crlf());
    assert(buf[c] == buf.subrange(c, c + 2)[0]);
    assert(buf[c + 1] == buf.subrange(c, c + 2)[1]);
    assert(spec_bulk(buf, p + 1) == Step::Done(c + 2, Split::BulkString(start, c)));
}

proof fn lemma_simple_roundtrip(buf: Seq<u8>, p: int, s: Seq<u8>)
    requires
        0 <= p,
        !s.contains(13u8),
        !s.contains(10u8),
        p + spec_encode(RedisValueView::SimpleString(s)).len() <= buf.len(),
        buf.subrange(p, p + spec_encode(RedisValueView::SimpleString(s)).len()) == spec_encode(
            RedisValueView::SimpleString(s),
        ),
    ensures
        spec_inner(buf, p) matches Step::Done(q, sp) && q == p + spec_encode(
            RedisValueView::SimpleString(s),
        ).len() && split_value(buf, sp) == RedisValueView::SimpleString(s),
{
    let e = spec_encode(RedisValueView::SimpleString(s));
    assert(buf[p] == buf.subrange(p, p + e.len())[0]);
    assert(e.subrange(1, 1 + s.len() as int + 2) =~= s + crlf());
    lemma_piece(buf, p, e, 1, s + crlf());
    lemma_line_end(buf, p + 1, s);
    assert(e.subrange(1, 1 + s.len() as int) =~= s);
    lemma_piece(buf, p, e, 1, s);
}

proof fn lemma_null_roundtrip(buf: Seq<u8>, p: int)
    requires
        0 <= p,
        p + 5 <= buf.len(),
        buf.subrange(p, p + 5) == spec_encode(RedisValueView::Null),
    ensures
        spec_inner(buf, p) matches Step::Done(q, sp) && q == p + 5 && split_value(buf, sp)
            == RedisValueView::Null,
{
    let e = spec_encode(RedisValueView::Null);
    let t = seq![45u8, 49u8];
    lemma_minus_one_line();
    assert(buf[p] == buf.subrange(p, p + 5)[0]);
    assert(e.subrange(1, 5) =~= t + crlf());
    lemma_piece(buf, p, e, 1, t + crlf());
    lemma_int_text(buf, p + 1, t, -1);
}

proof fn lemma_inner_roundtrip(buf: Seq<u8>, p: int, v: RedisValueView)
    requires
        0 <= p,
        wire_encodable(v),
        p + spec_encode(v).len() <= buf.len(),
        buf.subrange(p, p + spec_encode(v).len()) == spec_encode(v),
    ensures
        spec_inner(buf, p) matches Step::Done(q, s) && q == p + spec_encode(v).len() && split_value(
            buf,
            s,
        ) == v,
    decreases v, 0int,
{
    match v {
        RedisValueView::BulkString(s) => {
            lemma_bulk_roundtrip(buf, p, s);
        },
        RedisValueView::SimpleString(s) => {
            lemma_simple_roundtrip(buf, p, s);
        },
        RedisValueView::Null => {
            lemma_null_roundtrip(buf, p);
        },
        RedisValueView::Integer(i) => {
            lemma_integer_roundtrip(buf, p, i);
        },
        RedisValueView::Array(a) => {
            let e = spec_encode(v);
            let d = decimal(a.len());
            lemma_decimal_line(a.len());
            assert(buf[p] == buf.subrange(p, p + e.len())[0]);
            assert(e.subrange(1, 1 + d.len() as int + 2) =~= d + crlf());
            lemma_piece(buf, p, e, 1, d + crlf());
            lemma_int_text(buf, p + 1, d, a.len() as int);
            let start = p + 1 + d.len() + 2;
            let body = encode_all(a);
            assert(e.subrange(start - p, start - p + body.len()) =~= body);
            lemma_piece(buf, p, e, start - p, body);
            assert(decreases_to!(v => a));
            lemma_elems_roundtrip(buf, start, a);
            let ss = spec_elems(buf, start, a.len())->Done_1->Array_0;
            let sv = split_value(buf, Split::Array(ss));
            assert(sv->Array_0 =~= a);
        },
        _ => {},
    }
}

proof fn lemma_elems_roundtrip(buf: Seq<u8>, p: int, items: Seq<RedisValueView>)
    requires
        0 <= p,
        forall|i: int| 0 <= i < items.len() ==> wire_encodable(#[trigger] items[i]),
        p + encode_all(items).len() <= buf.len(),
        buf.subrange(p, p + encode_all(items).len()) == encode_all(items),
    ensures
        spec_elems(buf, p, items.len()) matches Step::Done(q, Split::Array(ss)) && q == p
            + encode_all(items).len() && ss.len() == items.len() && forall|i: int|
            0 <= i < items.len() ==> split_value(buf, #[trigger] ss[i]) == items[i],
    decreases items, 1int,
{
    if items.len() > 0 {
        let first = items[0];
        let rest = items.subrange(1, items.len() as int);
        let all = encode_all(items);
        let e0 = spec_encode(first);
        lemma_encode_all_first(items);
        lemma_encode_nonempty(first);
        assert(all.subrange(0, e0.len() as int) =~= e0);
        lemma_piece(buf, p, all, 0, e0);
        assert(decreases_to!(items => items[0]));
        lemma_inner_roundtrip(buf, p, first);
        let p1 = p + e0.len();
        let er = encode_all(rest);
        assert(all.subrange(e0.len() as int, e0.len() + er.len() as int) =~= er);
        lemma_piece(buf, p, all, e0.len() as int, er);
        assert forall|i: int| 0 <= i < rest.len() implies wire_encodable(#[trigger] rest[i]) by {
            assert(rest[i] == items[i + 1]);
        }
        lemma_elems_roundtrip(buf, p1, rest);
        let s0 = spec_inner(buf, p)->Done_1;
        let rs = spec_elems(buf, p1, rest.len())->Done_1->Array_0;
        assert((items.len() - 1) as nat == rest.len());
        let ss = seq![s0] + rs;
        assert forall|i: int| 0 <= i < items.len() implies split_value(buf, #[trigger] ss[i])
            == items[i] by {
            if i > 0 {
                assert(ss[i] == rs[i - 1]);
                assert(items[i] == rest[i - 1]);
            }
        }
    }
}

/// Decoding an encoded request gives back the request and takes exactly its bytes, whatever
/// follows it in the buffer.
pub proof fn law_encode_then_decode(v: RedisValueView, rest: Seq<u8>)
    requires
        v is Array,
        wire_encodable(v),
    ensures
        spec_parse(spec_encode(v) + rest) matches Step::Done(n, s) && n == spec_encode(v).len()
            && split_value(spec_encode(v) + rest, s) == v,
{
    let buf = spec_encode(v) + rest;
    assert(buf.subrange(0, spec_encode(v).len() as int) =~= spec_encode(v));
    lemma_inner_roundtrip(buf, 0, v);
    assert(buf[0] == 42);
}

/// A line without CR or LF that does not start with `*` is read as an inline command: a simple
/// string holding the whole line.
pub proof fn law_inline_line(line: Seq<u8>, rest: Seq<u8>)
    requires
        !line.contains(13u8),
        !line.contains(10u8),
        line.len() == 0 || line[0] != 42,
    ensures
        spec_parse(line + crlf() + rest) == Step::Done(
            line.len() as int + 2,
            Split::SimpleString(0, line.len() as int),
        ),
{
    let buf = line + crlf() + rest;
    assert(buf.subrange(0, line.len() as int + 2) =~= line + crlf());
    lemma_line_end(buf, 0, line);
    assert(buf.subrange(0, line.len() as int) =~= line);
    assert(buf[0] == (line + crlf())[0]);
}

} // verus!
