//! Decimal integers on byte strings: reading them the way `str::parse` does, and writing them
//! the way `Display` does.

use vstd::prelude::*;

verus! {

/// An ASCII digit `0`..`9`.
pub open spec fn is_digit(b: u8) -> bool {
    48 <= b <= 57
}

/// Every byte of `s` is an ASCII digit.
pub open spec fn all_digits(s: Seq<u8>) -> bool {
    forall|i: int| 0 <= i < s.len() ==> is_digit(#[trigger] s[i])
}

/// The number that a string of ASCII digits denotes in base ten (the empty string denotes 0).
pub open spec fn digits_value(s: Seq<u8>) -> nat
    decreases s.len(),
{
    if s.len() == 0 {
        0
    } else {
        digits_value(s.drop_last()) * 10 + (s.last() - 48) as nat
    }
}

/// What `<iN as FromStr>::from_str` accepts for a signed type with range `min..=max`: an optional
/// `+` or `-`, then one or more ASCII digits, denoting a value inside the range.
pub open spec fn signed_from_str(s: Seq<u8>, min: int, max: int) -> Option<int> {
    let signed = s.len() > 0 && (s[0] == 45 || s[0] == 43);
    let body = if signed {
        s.skip(1)
    } else {
        s
    };
    let magnitude = digits_value(body) as int;
    let v = if s.len() > 0 && s[0] == 45 {
        -magnitude
    } else {
        magnitude
    };
    if body.len() == 0 || !all_digits(body) || v < min || v > max {
        None
    } else {
        Some(v)
    }
}

/// The shortest base-ten rendering of `n`, as `Display` writes it.
pub open spec fn decimal(n: nat) -> Seq<u8>
    decreases n,
{
    if n < 10 {
        seq![(48 + n) as u8]
    } else {
        decimal(n / 10).push((48 + n % 10) as u8)
    }
}

/// `Display` of a signed integer: a `-` before the magnitude of a negative value.
pub open spec fn display_int(i: int) -> Seq<u8> {
    if i < 0 {
        seq![45u8] + decimal((-i) as nat)
    } else {
        decimal(i as nat)
    }
}

pub proof fn lemma_digits_value_prefix_le(s: Seq<u8>, k: int)
    requires
        0 <= k <= s.len(),
        all_digits(s),
    ensures
        digits_value(s.take(k)) <= digits_value(s),
    decreases s.len(),
{
    if k < s.len() {
        assert(s.drop_last().take(k) =~= s.take(k));
        lemma_digits_value_prefix_le(s.drop_last(), k);
    } else {
        assert(s.take(k) =~= s);
    }
}

pub proof fn lemma_digits_value_push(s: Seq<u8>, b: u8)
    ensures
        digits_value(s.push(b)) == digits_value(s) * 10 + (b - 48) as nat,
{
    assert(s.push(b).drop_last() =~= s);
}

pub proof fn lemma_decimal(n: nat)
    ensures
        decimal(n).len() >= 1,
        all_digits(decimal(n)),
        digits_value(decimal(n)) == n,
    decreases n,
{
    if n < 10 {
        assert(decimal(n).drop_last() =~= Seq::<u8>::empty());
        assert(digits_value(Seq::<u8>::empty()) == 0);
    } else {
        lemma_decimal(n / 10);
        lemma_digits_value_push(decimal(n / 10), (48 + n % 10) as u8);
        assert forall|i: int| 0 <= i < decimal(n).len() implies is_digit(#[trigger] decimal(n)[i]) by {
            if i < decimal(n / 10).len() {
                assert(decimal(n)[i] == decimal(n / 10)[i]);
            }
        }
    }
}

/// Reads an `i64` as `<i64 as FromStr>::from_str` does, on the bytes of the string.
pub fn parse_i64(s: &[u8]) -> (r: Option<i64>)
    ensures
        r is Some == signed_from_str(s@, i64::MIN as int, i64::MAX as int) is Some,
        r matches Some(v) ==> signed_from_str(s@, i64::MIN as int, i64::MAX as int) == Some(
            v as int,
        ),
{
    let n = s.len();
    if n == 0 {
        return None;
    }
    let negative = s[0] == 45;
    let start: usize = if s[0] == 45 || s[0] == 43 {
        1
    } else {
        0
    };
    let ghost body = if start == 1 {
        s@.skip(1)
    } else {
        s@
    };
    assert(body =~= s@.subrange(start as int, n as int));
    if start == n {
        return None;
    }
    let bound: u64 = 9223372036854775808;
    let mut acc: u64 = 0;
    let mut i: usize = start;
    while i < n
        invariant
            start <= i <= n,
            n == s@.len(),
            n > 0,
            start <= 1,
            (start == 1) == (s@[0] == 45 || s@[0] == 43),
            negative == (s@[0] == 45),
            body == (if start == 1 {
                s@.skip(1)
            } else {
                s@
            }),
            body =~= s@.subrange(start as int, n as int),
            all_digits(body.take(i - start)),
            acc as nat == digits_value(body.take(i - start)),
            acc <= bound,
            bound == 9223372036854775808,
        decreases n - i,
    {
        let b = s[i];
        assert(body[i - start] == b);
        if b < 48 || b > 57 {
            assert(!is_digit(body[i - start]));
            return None;
        }
        let d = (b - 48) as u64;
        assert(body.take(i - start + 1) =~= body.take(i - start).push(b));
        proof {
            lemma_digits_value_push(body.take(i - start), b);
        }
        if acc > (bound - d) / 10 {
            proof {
                assert(acc * 10 + d > bound) by (nonlinear_arith)
                    requires
                        acc > (bound - d) / 10,
                        d <= 9,
                        bound == 9223372036854775808u64,
                ;
                if all_digits(body) {
                    lemma_digits_value_prefix_le(body, i - start + 1);
                }
            }
            return None;
        }
        assert(acc * 10 + d <= bound) by (nonlinear_arith)
            requires
                acc <= (bound - d) / 10,
                d <= 9,
                bound == 9223372036854775808u64,
        ;
        acc = acc * 10 + d;
        i += 1;
    }
    assert(body.take(n - start) =~= body);
    if negative {
        if acc == bound {
            Some(i64::MIN)
        } else {
            Some(-(acc as i64))
        }
    } else {
        if acc == bound {
            None
        } else {
            Some(acc as i64)
        }
    }
}

/// Reads an `isize` as `<isize as FromStr>::from_str` does, on the bytes of the string.
pub fn parse_isize(s: &[u8]) -> (r: Option<isize>)
    ensures
        r is Some == signed_from_str(s@, isize::MIN as int, isize::MAX as int) is Some,
        r matches Some(v) ==> signed_from_str(s@, isize::MIN as int, isize::MAX as int) == Some(
            v as int,
        ),
{
    match parse_i64(s) {
        Some(v) => {
            if (isize::MIN as i64) <= v && v <= (isize::MAX as i64) {
                Some(v as isize)
            } else {
                None
            }
        },
        None => None,
    }
}

/// Writes `n` in base ten, as `Display` does.
pub fn render_u64(n: u64) -> (r: Vec<u8>)
    ensures
        r@ == decimal(n as nat),
    decreases n,
{
    if n < 10 {
        let mut v: Vec<u8> = Vec::new();
        v.push((48 + n) as u8);
        assert(v@ =~= seq![(48 + n) as u8]);
        v
    } else {
        let mut v = render_u64(n / 10);
        v.push((48 + n % 10) as u8);
        v
    }
}

/// Writes `i` in base ten with a leading `-` when negative, as `Display` does.
pub fn render_i64(i: i64) -> (r: Vec<u8>)
    ensures
        r@ == display_int(i as int),
{
    if i < 0 {
        let magnitude: u64 = if i == i64::MIN {
            9223372036854775808u64
        } else {
            (-i) as u64
        };
        let digits = render_u64(magnitude);
        let mut v: Vec<u8> = Vec::new();
        v.push(45u8);
        let mut k: usize = 0;
        while k < digits.len()
            invariant
                k <= digits@.len(),
                v@ =~= seq![45u8] + digits@.take(k as int),
            decreases digits@.len() - k,
        {
            v.push(digits[k]);
            k += 1;
            assert(digits@.take(k as int) =~= digits@.take(k - 1).push(digits@[k - 1]));
        }
        assert(digits@.take(k as int) =~= digits@);
        v
    } else {
        render_u64(i as u64)
    }
}

} // verus!
