//! Integers in lexical form: reading a JSON number as a fixed-width integer,
//! and writing an integer as a JSON number.
use vstd::prelude::*;

use crate::grammar::{
    is_digit, is_exp_marker, is_int_part, is_number, is_split, lemma_layout, lemma_split, DOT,
    MINUS, NINE, ZERO,
};
use crate::trim::has_exponent_spec;

verus! {

/// The value of a run of decimal digits.
pub open spec fn digits_value(t: Seq<u8>) -> nat
    decreases t.len(),
{
    if t.len() == 0 {
        0
    } else {
        digits_value(t.drop_last()) * 10 + (t.last() - ZERO) as nat
    }
}

/// A JSON number written with neither fraction nor exponent.
pub open spec fn is_integer_text(s: Seq<u8>) -> bool {
    !s.contains(DOT) && !has_exponent_spec(s)
}

pub open spec fn is_negative_text(s: Seq<u8>) -> bool {
    s.len() > 0 && s[0] == MINUS
}

/// The digits of a number, without its sign.
pub open spec fn magnitude_text(s: Seq<u8>) -> Seq<u8> {
    if is_negative_text(s) {
        s.drop_first()
    } else {
        s
    }
}

/// The value of an integer written in decimal.
pub open spec fn integer_value(s: Seq<u8>) -> int {
    if is_negative_text(s) {
        -digits_value(s.drop_first())
    } else {
        digits_value(s) as int
    }
}

/// The number `s` read as a signed integer in `[lo, hi]`, if it is one.
pub open spec fn signed_of(s: Seq<u8>, lo: int, hi: int) -> Option<int> {
    if is_integer_text(s) && lo <= integer_value(s) <= hi {
        Some(integer_value(s))
    } else {
        None
    }
}

/// The number `s` read as an unsigned integer up to `hi`, if it is one: no
/// `-` may lead it, not even before a zero.
pub open spec fn unsigned_of(s: Seq<u8>, hi: int) -> Option<int> {
    if is_integer_text(s) && !is_negative_text(s) && integer_value(s) <= hi {
        Some(integer_value(s))
    } else {
        None
    }
}

pub open spec fn i32_of(s: Seq<u8>) -> Option<i32> {
    match signed_of(s, i32::MIN as int, i32::MAX as int) {
        Some(v) => Some(v as i32),
        None => None,
    }
}

pub open spec fn i64_of(s: Seq<u8>) -> Option<i64> {
    match signed_of(s, i64::MIN as int, i64::MAX as int) {
        Some(v) => Some(v as i64),
        None => None,
    }
}

pub open spec fn u32_of(s: Seq<u8>) -> Option<u32> {
    match unsigned_of(s, u32::MAX as int) {
        Some(v) => Some(v as u32),
        None => None,
    }
}

pub open spec fn u64_of(s: Seq<u8>) -> Option<u64> {
    match unsigned_of(s, u64::MAX as int) {
        Some(v) => Some(v as u64),
        None => None,
    }
}

/// The decimal digits of `n`, with no leading zero.
pub open spec fn nat_digits(n: nat) -> Seq<u8>
    decreases n,
{
    if n < 10 {
        seq![(ZERO + n) as u8]
    } else {
        nat_digits(n / 10).push((ZERO + n % 10) as u8)
    }
}

/// `n` written in decimal, led by `-` when it is negative.
pub open spec fn decimal_text(n: int) -> Seq<u8> {
    if n < 0 {
        seq![MINUS] + nat_digits((-n) as nat)
    } else {
        nat_digits(n as nat)
    }
}

/// Relies on `lexical::to_string`: an integer is written as its decimal
/// digits with no leading zero, led by `-` when it is negative.
#[verifier::external_body]
pub(crate) fn decimal_bytes(n: i128) -> (r: Vec<u8>)
    ensures
        r@ == decimal_text(n as int),
{
    lexical::to_string(n).into_bytes()
}

/// A longer run of digits is worth at least as much as its prefix.
pub proof fn lemma_digits_value_prefix(t: Seq<u8>, k: int)
    requires
        0 <= k <= t.len(),
        forall|j: int| 0 <= j < t.len() ==> is_digit(#[trigger] t[j]),
    ensures
        digits_value(t.take(k)) <= digits_value(t),
    decreases t.len() - k,
{
    if k < t.len() {
        lemma_digits_value_prefix(t, k + 1);
        assert(t.take(k + 1).drop_last() =~= t.take(k));
        assert(is_digit(t[k]));
    } else {
        assert(t.take(k) =~= t);
    }
}

/// The digits of `n` are digits, read back as `n`, with no leading zero.
pub proof fn lemma_nat_digits(n: nat)
    ensures
        is_int_part(nat_digits(n)),
        digits_value(nat_digits(n)) == n,
        nat_digits(n)[0] == ZERO ==> n == 0,
    decreases n,
{
    if n >= 10 {
        lemma_nat_digits(n / 10);
        let p = nat_digits(n / 10);
        let d = (ZERO + n % 10) as u8;
        let q = p.push(d);
        assert(q == nat_digits(n));
        assert(q.drop_last() =~= p);
        assert(q.last() == d);
        assert(d - ZERO == n % 10);
        assert(digits_value(q) == digits_value(p) * 10 + (n % 10));
        assert forall|k: int| 0 <= k < q.len() implies is_digit(#[trigger] q[k]) by {
            if k < p.len() {
                assert(q[k] == p[k]);
            }
        }
        assert(q[0] == p[0]);
        assert((n / 10) * 10 + n % 10 == n) by (nonlinear_arith);
    } else {
        let q = nat_digits(n);
        assert(q.drop_last() =~= Seq::<u8>::empty());
        assert(digits_value(Seq::<u8>::empty()) == 0);
        assert(q.last() - ZERO == n);
    }
}

/// A JSON number is an integer text exactly when its magnitude is digits
/// only.
pub proof fn lemma_integer_text(s: Seq<u8>)
    requires
        is_number(s),
    ensures
        is_integer_text(s) <==> forall|k: int|
            0 <= k < magnitude_text(s).len() ==> is_digit(#[trigger] magnitude_text(s)[k]),
        magnitude_text(s).len() > 0,
{
    let (m, i, f, e) = lemma_split(s);
    lemma_layout(s, m, i, f, e);
    let t = magnitude_text(s);
    let a = m.len() as int;
    let b = a + i.len();
    let c = b + f.len();
    if is_negative_text(s) {
        if a == 0 {
            assert(is_digit(s[0]));
        }
    } else if a == 1 {
        assert(s[0] == MINUS);
    }
    assert(t =~= s.skip(a));
    if is_integer_text(s) {
        assert(f.len() == 0) by {
            if f.len() > 0 {
                assert(s[b] == DOT);
            }
        }
        assert(e.len() == 0) by {
            if e.len() > 0 {
                assert(is_exp_marker(s[c]));
            }
        }
        assert forall|k: int| 0 <= k < t.len() implies is_digit(#[trigger] t[k]) by {
            assert(t[k] == s[a + k]);
        }
    }
    if forall|k: int| 0 <= k < t.len() ==> is_digit(#[trigger] t[k]) {
        assert forall|k: int| 0 <= k < s.len() implies #[trigger] s[k] != DOT && !is_exp_marker(
            s[k],
        ) by {
            if k >= a {
                assert(s[k] == t[k - a]);
            }
        }
    }
}

/// An integer written in decimal is a JSON number with neither fraction nor
/// exponent, and reads back as itself.
pub proof fn lemma_decimal_text(n: int)
    ensures
        is_number(decimal_text(n)),
        is_integer_text(decimal_text(n)),
        integer_value(decimal_text(n)) == n,
        is_negative_text(decimal_text(n)) <==> n < 0,
{
    let s = decimal_text(n);
    let d = if n < 0 {
        (-n) as nat
    } else {
        n as nat
    };
    lemma_nat_digits(d);
    let t = nat_digits(d);
    let m = if n < 0 {
        seq![MINUS]
    } else {
        Seq::<u8>::empty()
    };
    assert(s =~= m + t + Seq::<u8>::empty() + Seq::<u8>::empty());
    assert(is_split(s, m, t, Seq::<u8>::empty(), Seq::<u8>::empty()));
    if n < 0 {
        assert(s.drop_first() =~= t);
    } else {
        assert(is_digit(t[0]));
    }
    assert(magnitude_text(s) =~= t);
    lemma_integer_text(s);
}

/// Reads the digits of `s` from `start` as an unsigned value no greater
/// than `limit`.
pub fn parse_magnitude(s: &[u8], start: usize, limit: u64) -> (r: Option<u64>)
    requires
        start <= s@.len(),
        limit >= 9,
    ensures
        r == if (forall|k: int| start <= k < s@.len() ==> is_digit(#[trigger] s@[k]))
            && digits_value(s@.skip(start as int)) <= limit {
            Some(digits_value(s@.skip(start as int)) as u64)
        } else {
            None
        },
{
    let ghost t = s@.skip(start as int);
    let mut acc: u64 = 0;
    let mut i: usize = start;
    while i < s.len()
        invariant
            start <= i <= s@.len(),
            t == s@.skip(start as int),
            limit >= 9,
            forall|k: int| start <= k < i ==> is_digit(#[trigger] s@[k]),
            acc == digits_value(t.take(i - start)),
            acc <= limit,
        decreases s@.len() - i,
    {
        let b = s[i];
        proof {
            assert(t.take(i - start + 1).drop_last() =~= t.take(i - start));
            assert(t[i - start] == s@[i as int]);
        }
        if !(ZERO <= b && b <= NINE) {
            return None;
        }
        let d: u64 = (b - ZERO) as u64;
        if acc > (limit - d) / 10 {
            proof {
                assert(acc * 10 + d > limit) by (nonlinear_arith)
                    requires
                        acc > (limit - d) / 10,
                        d <= 9,
                        limit >= 9,
                ;
                if forall|k: int| start <= k < s@.len() ==> is_digit(#[trigger] s@[k]) {
                    assert forall|k: int| 0 <= k < t.len() implies is_digit(#[trigger] t[k]) by {
                        assert(t[k] == s@[start + k]);
                    }
                    lemma_digits_value_prefix(t, i - start + 1);
                }
            }
            return None;
        }
        proof {
            assert(acc * 10 + d <= limit) by (nonlinear_arith)
                requires
                    acc <= (limit - d) / 10,
                    d <= 9,
                    limit >= 9,
            ;
        }
        acc = acc * 10 + d;
        i += 1;
    }
    proof {
        assert(t.take(i - start) =~= t);
    }
    Some(acc)
}

/// An `i32` written as a JSON number reads back as itself.
pub proof fn lemma_i32_round_trip(n: i32)
    ensures
        is_number(decimal_text(n as int)),
        i32_of(decimal_text(n as int)) == Some(n),
{
    lemma_decimal_text(n as int);
}

/// An `i64` written as a JSON number reads back as itself.
pub proof fn lemma_i64_round_trip(n: i64)
    ensures
        is_number(decimal_text(n as int)),
        i64_of(decimal_text(n as int)) == Some(n),
{
    lemma_decimal_text(n as int);
}

/// A `u32` written as a JSON number reads back as itself.
pub proof fn lemma_u32_round_trip(n: u32)
    ensures
        is_number(decimal_text(n as int)),
        u32_of(decimal_text(n as int)) == Some(n),
{
    lemma_decimal_text(n as int);
}

/// A `u64` written as a JSON number reads back as itself.
pub proof fn lemma_u64_round_trip(n: u64)
    ensures
        is_number(decimal_text(n as int)),
        u64_of(decimal_text(n as int)) == Some(n),
{
    lemma_decimal_text(n as int);
}

} // verus!
