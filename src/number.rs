use vstd::prelude::*;

use crate::error::InvalidNumber;
use crate::grammar::{
    is_digit, is_exp_marker, is_number, lemma_accepts_iff_number, lemma_ascii, lemma_layout,
    lemma_minus_leads, lemma_point_once, lemma_run_dead, lemma_run_push, lemma_split, run_from,
    step, State, DOT, LOWER_E, MINUS, NINE, ONE, PLUS, UPPER_E, ZERO,
};
use crate::integer::{
    i32_of, i64_of, lemma_integer_text, magnitude_text, parse_magnitude, signed_of, u32_of, u64_of,
    unsigned_of,
};
use crate::sign::Sign;
use crate::trim::{has_exponent_spec, lemma_trim_push, lemma_trimmed_number, trimmed_spec};

verus! {

/// No exponent marker stands in `s` up to and including position `k`.
pub open spec fn before_exponent(s: Seq<u8>, k: int) -> bool {
    forall|j: int| 0 <= j <= k ==> !is_exp_marker(#[trigger] s[j])
}

pub open spec fn is_zero_byte(b: u8) -> bool {
    b == MINUS || b == ZERO || b == DOT
}

/// Every byte before the exponent is `-`, `0` or `.`: the digits of the
/// mantissa are all zero, whatever the exponent says.
pub open spec fn is_zero_spec(s: Seq<u8>) -> bool {
    forall|k: int| 0 <= k < s.len() && before_exponent(s, k) ==> is_zero_byte(#[trigger] s[k])
}

/// The sign of a lexical number: zero when its mantissa is, otherwise given
/// by a leading `-`.
pub open spec fn sign_spec(s: Seq<u8>) -> Sign {
    if is_zero_spec(s) {
        Sign::Zero
    } else if s.len() > 0 && s[0] == MINUS {
        Sign::Negative
    } else {
        Sign::Positive
    }
}

/// Each byte read as the character of the same code.
pub open spec fn ascii_chars(b: Seq<u8>) -> Seq<char> {
    Seq::new(b.len(), |k: int| b[k] as char)
}

/// Relies on `std::str::from_utf8`: ASCII bytes are valid UTF-8, and each
/// one stands for the character of the same code.
#[verifier::external_body]
fn ascii_str<'b>(b: &'b [u8]) -> (r: &'b str)
    ensures
        (forall|k: int| 0 <= k < b@.len() ==> #[trigger] b@[k] < 128) ==> r@ == ascii_chars(b@),
{
    match std::str::from_utf8(b) {
        Ok(s) => s,
        Err(_) => "",
    }
}

/// Whether trimming gives the same text: the test that a conversion to a
/// float, written back as `formatted`, lost nothing of `number`.
pub open spec fn is_lossless_spec(number: Seq<u8>, formatted: Seq<u8>) -> bool {
    trimmed_spec(formatted) == trimmed_spec(number)
}

/// A number is zero exactly when its sign is `Zero`.
pub proof fn lemma_zero_iff_sign_zero(s: Seq<u8>)
    ensures
        is_zero_spec(s) <==> sign_spec(s) == Sign::Zero,
{
}

/// Lexical JSON number.
///
/// This holds the lexical representation of a JSON number, borrowed from
/// the storage it lives in. Equality is lexical: `1` and `1.0` differ.
#[derive(Clone, Copy, Debug, Eq, PartialOrd, Ord, Hash)]
pub struct Number<'a> {
    data: &'a [u8],
}

impl<'a> View for Number<'a> {
    type V = Seq<u8>;

    closed spec fn view(&self) -> Seq<u8> {
        self.data@
    }
}

impl<'a> PartialEq for Number<'a> {
    fn eq(&self, other: &Number<'a>) -> (r: bool) {
        bytes_eq(self.data, other.data)
    }
}

impl<'a> vstd::std_specs::cmp::PartialEqSpecImpl for Number<'a> {
    open spec fn obeys_eq_spec() -> bool {
        true
    }

    open spec fn eq_spec(&self, other: &Number<'a>) -> bool {
        self@ == other@
    }
}

/// Compares two byte spans.
pub fn bytes_eq(a: &[u8], b: &[u8]) -> (r: bool)
    ensures
        r == (a@ == b@),
{
    if a.len() != b.len() {
        return false;
    }
    let mut i: usize = 0;
    while i < a.len()
        invariant
            a@.len() == b@.len(),
            0 <= i <= a@.len(),
            forall|j: int| 0 <= j < i ==> a@[j] == b@[j],
        decreases a@.len() - i,
    {
        if a[i] != b[i] {
            return false;
        }
        i += 1;
    }
    assert(a@ =~= b@);
    true
}

/// One transition of the recognizer.
fn transition(state: State, b: u8) -> (r: Option<State>)
    ensures
        r == step(state, b),
{
    match state {
        State::Init => if b == MINUS {
            Some(State::FirstDigit)
        } else if b == ZERO {
            Some(State::Zero)
        } else if ONE <= b && b <= NINE {
            Some(State::NonZero)
        } else {
            None
        },
        State::FirstDigit => if b == ZERO {
            Some(State::Zero)
        } else if ONE <= b && b <= NINE {
            Some(State::NonZero)
        } else {
            None
        },
        State::Zero => if b == DOT {
            Some(State::FractionalFirst)
        } else if b == LOWER_E || b == UPPER_E {
            Some(State::ExponentSign)
        } else {
            None
        },
        State::NonZero => if ZERO <= b && b <= NINE {
            Some(State::NonZero)
        } else if b == DOT {
            Some(State::FractionalFirst)
        } else if b == LOWER_E || b == UPPER_E {
            Some(State::ExponentSign)
        } else {
            None
        },
        State::FractionalFirst => if ZERO <= b && b <= NINE {
            Some(State::FractionalRest)
        } else {
            None
        },
        State::FractionalRest => if ZERO <= b && b <= NINE {
            Some(State::FractionalRest)
        } else if b == LOWER_E || b == UPPER_E {
            Some(State::ExponentSign)
        } else {
            None
        },
        State::ExponentSign => if b == PLUS || b == MINUS {
            Some(State::ExponentFirst)
        } else if ZERO <= b && b <= NINE {
            Some(State::ExponentRest)
        } else {
            None
        },
        State::ExponentFirst => if ZERO <= b && b <= NINE {
            Some(State::ExponentRest)
        } else {
            None
        },
        State::ExponentRest => if ZERO <= b && b <= NINE {
            Some(State::ExponentRest)
        } else {
            None
        },
    }
}

/// The magnitude of a number starts after its sign.
proof fn lemma_digits_from(s: Seq<u8>, start: int)
    requires
        s.len() > 0,
        start == if s[0] == MINUS {
            1int
        } else {
            0
        },
    ensures
        s.skip(start) == magnitude_text(s),
        (forall|k: int| start <= k < s.len() ==> is_digit(#[trigger] s[k])) <==> (forall|k: int|
            0 <= k < magnitude_text(s).len() ==> is_digit(#[trigger] magnitude_text(s)[k])),
{
    let t = magnitude_text(s);
    assert(s.skip(start) =~= t);
    if forall|k: int| start <= k < s.len() ==> is_digit(#[trigger] s[k]) {
        assert forall|k: int| 0 <= k < t.len() implies is_digit(#[trigger] t[k]) by {
            assert(t[k] == s[k + start]);
        }
    }
    if forall|k: int| 0 <= k < t.len() ==> is_digit(#[trigger] t[k]) {
        assert forall|k: int| start <= k < s.len() implies is_digit(#[trigger] s[k]) by {
            assert(t[k - start] == s[k]);
        }
    }
}

impl<'a> Number<'a> {
    #[verifier::type_invariant]
    spec fn wf(self) -> bool {
        is_number(self.data@)
    }

    /// Creates a new number by validating the given input `data`.
    ///
    /// On failure the input is handed back unchanged.
    pub fn new(data: &'a [u8]) -> (r: Result<Number<'a>, InvalidNumber<&'a [u8]>>)
        ensures
            match r {
                Ok(n) => is_number(data@) && n@ == data@,
                Err(e) => !is_number(data@) && e.0 == data,
            },
    {
        let mut state = State::Init;
        let mut i: usize = 0;
        while i < data.len()
            invariant
                0 <= i <= data@.len(),
                run_from(State::Init, data@.take(i as int)) == Some(state),
            decreases data@.len() - i,
        {
            let b = data[i];
            proof {
                lemma_run_push(State::Init, data@.take(i as int), b);
                assert(data@.take(i as int).push(b) =~= data@.take(i + 1));
            }
            match transition(state, b) {
                Some(next) => state = next,
                None => {
                    proof {
                        lemma_run_dead(State::Init, data@, i + 1);
                        lemma_accepts_iff_number(data@);
                    }
                    return Err(InvalidNumber(data));
                },
            }
            i += 1;
        }
        proof {
            assert(data@.take(i as int) =~= data@);
            lemma_accepts_iff_number(data@);
        }
        if matches!(
            state,
            State::Zero | State::NonZero | State::FractionalRest | State::ExponentRest
        ) {
            Ok(Number { data })
        } else {
            Err(InvalidNumber(data))
        }
    }

    /// Creates a new number without validating the given input `data`,
    /// which the caller proves to be a JSON number.
    pub fn new_unchecked(data: &'a [u8]) -> (r: Number<'a>)
        requires
            is_number(data@),
        ensures
            r@ == data@,
    {
        Number { data }
    }

    /// The bytes of the number.
    pub fn as_bytes(&self) -> (r: &'a [u8])
        ensures
            r@ == self@,
            is_number(r@),
    {
        proof {
            use_type_invariant(self);
        }
        self.data
    }

    /// Checks if the number is equal to zero.
    ///
    /// This includes every lexical representation where the integer and
    /// fraction parts are made of `0` only, maybe preceded with `-`, with
    /// any exponent part.
    pub fn is_zero(&self) -> (r: bool)
        ensures
            r == is_zero_spec(self@),
    {
        let mut i: usize = 0;
        while i < self.data.len()
            invariant
                0 <= i <= self@.len(),
                self@ == self.data@,
                forall|j: int| 0 <= j < i ==> !is_exp_marker(#[trigger] self@[j]),
                forall|j: int| 0 <= j < i ==> is_zero_byte(#[trigger] self@[j]),
            decreases self@.len() - i,
        {
            let b = self.data[i];
            if b == LOWER_E || b == UPPER_E {
                assert forall|k: int| 0 <= k < self@.len() && before_exponent(self@, k) implies
                    is_zero_byte(#[trigger] self@[k]) by {
                    if k >= i {
                        assert(!is_exp_marker(self@[i as int]));
                    }
                }
                return true;
            } else if !(b == MINUS || b == ZERO || b == DOT) {
                assert(before_exponent(self@, i as int));
                return false;
            }
            i += 1;
        }
        true
    }
    /// The number with the redundant trailing zeros of its fraction removed,
    /// and its point too when no digit is left after it. A number with an
    /// exponent is returned unchanged. The result borrows a prefix of the
    /// same bytes.
    pub fn trimmed(&self) -> (r: Number<'a>)
        ensures
            r@ == trimmed_spec(self@),
            r@ == self@.take(r@.len() as int),
    {
        proof {
            use_type_invariant(self);
            let (m, i, f, e) = lemma_split(self@);
            lemma_layout(self@, m, i, f, e);
            if self@[0] == DOT {
                lemma_point_once(self@, 0);
            }
            assert(is_digit(self@[0]) || self@[0] == MINUS);
            lemma_trim_push(Seq::<u8>::empty(), self@[0]);
            assert(Seq::<u8>::empty().push(self@[0]) =~= self@.take(1));
            lemma_trimmed_number(self@);
        }
        let ghost s = self@;
        let mut end: usize = 1;
        let mut i: usize = 1;
        let mut fractional = false;
        while i < self.data.len()
            invariant
                s == self.data@,
                is_number(s),
                1 <= end <= i <= s.len(),
                s.take(end as int) == trimmed_spec(s.take(i as int)),
                fractional == (s.take(i as int).contains(DOT) && !has_exponent_spec(
                    s.take(i as int),
                )),
            decreases s.len() - i,
        {
            let b = self.data[i];
            let ghost p = s.take(i as int);
            proof {
                lemma_trim_push(p, b);
                assert(p.push(b) =~= s.take(i + 1));
            }
            if b == ZERO && fractional {
            } else if b == DOT {
                proof {
                    lemma_point_once(s, i as int);
                    if p.contains(DOT) {
                        let k = choose|k: int| 0 <= k < p.len() && p[k] == DOT;
                        assert(s[k] == DOT);
                    }
                    if has_exponent_spec(p) {
                        let k = choose|k: int| 0 <= k < p.len() && is_exp_marker(#[trigger] p[k]);
                        assert(is_exp_marker(s[k]));
                    }
                    assert(s.take(end as int).len() == end);
                }
                fractional = true;
            } else {
                if b == LOWER_E || b == UPPER_E {
                    fractional = false;
                }
                end = i + 1;
            }
            i += 1;
        }
        proof {
            assert(s.take(i as int) =~= s);
        }
        Number { data: vstd::slice::slice_subrange(self.data, 0, end) }
    }

    /// Returns the sign of the number.
    pub fn sign(&self) -> (r: Sign)
        ensures
            r == sign_spec(self@),
    {
        proof {
            use_type_invariant(self);
        }
        let ghost s = self@;
        let mut non_negative = true;
        let mut i: usize = 0;
        while i < self.data.len()
            invariant
                s == self.data@,
                is_number(s),
                0 <= i <= s.len(),
                forall|j: int| 0 <= j < i ==> !is_exp_marker(#[trigger] s[j]),
                forall|j: int| 0 <= j < i ==> is_zero_byte(#[trigger] s[j]),
                non_negative == !(i > 0 && s[0] == MINUS),
            decreases s.len() - i,
        {
            let b = self.data[i];
            if b == MINUS {
                proof {
                    if i > 0 {
                        lemma_minus_leads(s, i as int);
                    }
                }
                non_negative = false;
            } else if b == ZERO || b == DOT {
            } else if b == LOWER_E || b == UPPER_E {
                assert forall|k: int| 0 <= k < s.len() && before_exponent(s, k) implies
                    is_zero_byte(#[trigger] s[k]) by {
                    if k >= i {
                        assert(!is_exp_marker(s[i as int]));
                    }
                }
                return Sign::Zero;
            } else {
                assert(before_exponent(s, i as int));
                assert(!is_zero_spec(s));
                return if non_negative {
                    Sign::Positive
                } else {
                    Sign::Negative
                };
            }
            i += 1;
        }
        Sign::Zero
    }

    /// Checks if the number is non positive (negative or zero).
    pub fn is_non_positive(&self) -> (r: bool)
        ensures
            r == (sign_spec(self@) == Sign::Negative || sign_spec(self@) == Sign::Zero),
    {
        self.sign().is_non_positive()
    }

    /// Checks if the number is non negative (positive or zero).
    pub fn is_non_negative(&self) -> (r: bool)
        ensures
            r == (sign_spec(self@) == Sign::Positive || sign_spec(self@) == Sign::Zero),
    {
        self.sign().is_non_negative()
    }

    /// Checks if the number is strictly positive (non zero nor negative).
    pub fn is_positive(&self) -> (r: bool)
        ensures
            r == (sign_spec(self@) == Sign::Positive),
    {
        self.sign().is_positive()
    }

    /// Checks if the number is strictly negative (non zero nor positive).
    pub fn is_negative(&self) -> (r: bool)
        ensures
            r == (sign_spec(self@) == Sign::Negative),
    {
        self.sign().is_negative()
    }

    /// Checks if the number has a decimal point.
    pub fn has_decimal_point(&self) -> (r: bool)
        ensures
            r == self@.contains(DOT),
    {
        let mut i: usize = 0;
        while i < self.data.len()
            invariant
                0 <= i <= self@.len(),
                self@ == self.data@,
                forall|j: int| 0 <= j < i ==> #[trigger] self@[j] != DOT,
            decreases self@.len() - i,
        {
            if self.data[i] == DOT {
                return true;
            }
            i += 1;
        }
        false
    }

    /// Checks if the number has a fraction part.
    ///
    /// This is an alias for [`has_decimal_point`](Self::has_decimal_point).
    pub fn has_fraction(&self) -> (r: bool)
        ensures
            r == self@.contains(DOT),
    {
        self.has_decimal_point()
    }

    /// Checks if the number has an exponent part.
    pub fn has_exponent(&self) -> (r: bool)
        ensures
            r == has_exponent_spec(self@),
    {
        let mut i: usize = 0;
        while i < self.data.len()
            invariant
                0 <= i <= self@.len(),
                self@ == self.data@,
                forall|j: int| 0 <= j < i ==> !is_exp_marker(#[trigger] self@[j]),
            decreases self@.len() - i,
        {
            let b = self.data[i];
            if b == LOWER_E || b == UPPER_E {
                return true;
            }
            i += 1;
        }
        false
    }
    /// The number as a signed integer of magnitude at most `max` (or
    /// `max + 1` when negative), if it is written as one.
    fn as_signed(&self, max: u64) -> (r: Option<i128>)
        requires
            9 <= max < u64::MAX,
        ensures
            r == match signed_of(self@, -(max + 1), max as int) {
                Some(v) => Some(v as i128),
                None => None,
            },
    {
        proof {
            use_type_invariant(self);
            lemma_integer_text(self@);
        }
        let neg = self.data[0] == MINUS;
        let start: usize = if neg {
            1
        } else {
            0
        };
        let limit: u64 = if neg {
            max + 1
        } else {
            max
        };
        proof {
            lemma_digits_from(self@, start as int);
        }
        match parse_magnitude(self.data, start, limit) {
            Some(v) => if neg {
                Some(-(v as i128))
            } else {
                Some(v as i128)
            },
            None => None,
        }
    }

    /// The number as an unsigned integer no greater than `max`, if it is
    /// written as one with no sign.
    fn as_unsigned(&self, max: u64) -> (r: Option<u64>)
        requires
            9 <= max,
        ensures
            r == match unsigned_of(self@, max as int) {
                Some(v) => Some(v as u64),
                None => None,
            },
    {
        proof {
            use_type_invariant(self);
            lemma_integer_text(self@);
        }
        if self.data[0] == MINUS {
            return None;
        }
        proof {
            lemma_digits_from(self@, 0);
        }
        parse_magnitude(self.data, 0, max)
    }

    /// Checks if the number is written as an integer that fits in `i32`.
    pub fn is_i32(&self) -> (r: bool)
        ensures
            r == i32_of(self@) is Some,
    {
        self.as_i32().is_some()
    }

    /// Checks if the number is written as an integer that fits in `i64`.
    pub fn is_i64(&self) -> (r: bool)
        ensures
            r == i64_of(self@) is Some,
    {
        self.as_i64().is_some()
    }

    /// Checks if the number is written as an integer that fits in `u32`.
    pub fn is_u32(&self) -> (r: bool)
        ensures
            r == u32_of(self@) is Some,
    {
        self.as_u32().is_some()
    }

    /// Checks if the number is written as an integer that fits in `u64`.
    pub fn is_u64(&self) -> (r: bool)
        ensures
            r == u64_of(self@) is Some,
    {
        self.as_u64().is_some()
    }

    /// The number as an `i32`, if it is written as an integer (no fraction,
    /// no exponent) in range.
    pub fn as_i32(&self) -> (r: Option<i32>)
        ensures
            r == i32_of(self@),
    {
        match self.as_signed(0x7fff_ffff) {
            Some(v) => Some(v as i32),
            None => None,
        }
    }

    /// The number as an `i64`, if it is written as an integer (no fraction,
    /// no exponent) in range.
    pub fn as_i64(&self) -> (r: Option<i64>)
        ensures
            r == i64_of(self@),
    {
        match self.as_signed(0x7fff_ffff_ffff_ffff) {
            Some(v) => Some(v as i64),
            None => None,
        }
    }

    /// The number as a `u32`, if it is written as an integer (no sign, no
    /// fraction, no exponent) in range.
    pub fn as_u32(&self) -> (r: Option<u32>)
        ensures
            r == u32_of(self@),
    {
        match self.as_unsigned(0xffff_ffff) {
            Some(v) => Some(v as u32),
            None => None,
        }
    }

    /// The number as a `u64`, if it is written as an integer (no sign, no
    /// fraction, no exponent) in range.
    pub fn as_u64(&self) -> (r: Option<u64>)
        ensures
            r == u64_of(self@),
    {
        self.as_unsigned(0xffff_ffff_ffff_ffff)
    }
    /// The number as text.
    pub fn as_str(&self) -> (r: &'a str)
        ensures
            r@ == ascii_chars(self@),
    {
        proof {
            use_type_invariant(self);
            lemma_ascii(self@);
        }
        ascii_str(self.data)
    }

    /// Checks `formatted`, the text that a float converted from this number
    /// writes back as, against the number: the conversion lost nothing
    /// exactly when both trim to the same bytes.
    pub fn is_lossless_repr(&self, formatted: Number<'_>) -> (r: bool)
        ensures
            r == is_lossless_spec(self@, formatted@),
    {
        let a = formatted.trimmed();
        let b = self.trimmed();
        bytes_eq(a.data, b.data)
    }
}

} // verus!
