//! The JSON number grammar, and the finite-state recognizer that decides it.
//!
//! ```text
//! number = ["-"] int [frac] [exp]
//! int    = "0" | digit1-9 digit*
//! frac   = "." digit+
//! exp    = ("e" | "E") ["+" | "-"] digit+
//! ```
use vstd::prelude::*;

verus! {

/// `-`
pub const MINUS: u8 = 0x2d;

/// `+`
pub const PLUS: u8 = 0x2b;

/// `.`
pub const DOT: u8 = 0x2e;

/// `0`
pub const ZERO: u8 = 0x30;

/// `1`
pub const ONE: u8 = 0x31;

/// `9`
pub const NINE: u8 = 0x39;

/// `e`
pub const LOWER_E: u8 = 0x65;

/// `E`
pub const UPPER_E: u8 = 0x45;

pub open spec fn is_digit(b: u8) -> bool {
    ZERO <= b <= NINE
}

pub open spec fn is_nonzero_digit(b: u8) -> bool {
    ONE <= b <= NINE
}

pub open spec fn is_exp_marker(b: u8) -> bool {
    b == LOWER_E || b == UPPER_E
}

pub open spec fn is_exp_sign(b: u8) -> bool {
    b == PLUS || b == MINUS
}

/// A non-empty run of decimal digits.
pub open spec fn is_digits(t: Seq<u8>) -> bool {
    t.len() > 0 && forall|k: int| 0 <= k < t.len() ==> is_digit(#[trigger] t[k])
}

/// `int = "0" | digit1-9 digit*`
pub open spec fn is_int_part(t: Seq<u8>) -> bool {
    is_digits(t) && (t[0] == ZERO ==> t.len() == 1)
}

/// `frac = "." digit+`
pub open spec fn is_frac_part(t: Seq<u8>) -> bool {
    t.len() > 0 && t[0] == DOT && is_digits(t.drop_first())
}

/// `exp = ("e" | "E") ["+" | "-"] digit+`
pub open spec fn is_exp_part(t: Seq<u8>) -> bool {
    t.len() > 0 && is_exp_marker(t[0]) && (is_digits(t.drop_first()) || (t.len() > 1
        && is_exp_sign(t[1]) && is_digits(t.skip(2))))
}

/// `s` is the sign `m`, the integer part `i`, the fraction `f` and the
/// exponent `e` of a JSON number, in that order.
pub open spec fn is_split(s: Seq<u8>, m: Seq<u8>, i: Seq<u8>, f: Seq<u8>, e: Seq<u8>) -> bool {
    &&& s == m + i + f + e
    &&& m.len() == 0 || m == seq![MINUS]
    &&& is_int_part(i)
    &&& f.len() == 0 || is_frac_part(f)
    &&& e.len() == 0 || is_exp_part(e)
}

/// `s` matches the JSON number grammar exactly.
pub open spec fn is_number(s: Seq<u8>) -> bool {
    exists|m: Seq<u8>, i: Seq<u8>, f: Seq<u8>, e: Seq<u8>| is_split(s, m, i, f, e)
}

/// States of the recognizer.
#[derive(PartialEq, Eq, Structural, Clone, Copy)]
pub enum State {
    Init,
    FirstDigit,
    Zero,
    NonZero,
    FractionalFirst,
    FractionalRest,
    ExponentSign,
    ExponentFirst,
    ExponentRest,
}

/// One transition of the recognizer; `None` rejects.
pub open spec fn step(st: State, b: u8) -> Option<State> {
    match st {
        State::Init => if b == MINUS {
            Some(State::FirstDigit)
        } else if b == ZERO {
            Some(State::Zero)
        } else if is_nonzero_digit(b) {
            Some(State::NonZero)
        } else {
            None
        },
        State::FirstDigit => if b == ZERO {
            Some(State::Zero)
        } else if is_nonzero_digit(b) {
            Some(State::NonZero)
        } else {
            None
        },
        State::Zero => if b == DOT {
            Some(State::FractionalFirst)
        } else if is_exp_marker(b) {
            Some(State::ExponentSign)
        } else {
            None
        },
        State::NonZero => if is_digit(b) {
            Some(State::NonZero)
        } else if b == DOT {
            Some(State::FractionalFirst)
        } else if is_exp_marker(b) {
            Some(State::ExponentSign)
        } else {
            None
        },
        State::FractionalFirst => if is_digit(b) {
            Some(State::FractionalRest)
        } else {
            None
        },
        State::FractionalRest => if is_digit(b) {
            Some(State::FractionalRest)
        } else if is_exp_marker(b) {
            Some(State::ExponentSign)
        } else {
            None
        },
        State::ExponentSign => if is_exp_sign(b) {
            Some(State::ExponentFirst)
        } else if is_digit(b) {
            Some(State::ExponentRest)
        } else {
            None
        },
        State::ExponentFirst => if is_digit(b) {
            Some(State::ExponentRest)
        } else {
            None
        },
        State::ExponentRest => if is_digit(b) {
            Some(State::ExponentRest)
        } else {
            None
        },
    }
}

pub open spec fn is_accepting(st: State) -> bool {
    st == State::Zero || st == State::NonZero || st == State::FractionalRest || st
        == State::ExponentRest
}

/// The state reached from `st` after reading `q`, if no byte was rejected.
pub open spec fn run_from(st: State, q: Seq<u8>) -> Option<State>
    decreases q.len(),
{
    if q.len() == 0 {
        Some(st)
    } else {
        match run_from(st, q.drop_last()) {
            Some(s2) => step(s2, q.last()),
            None => None,
        }
    }
}

pub open spec fn accepts(s: Seq<u8>) -> bool {
    match run_from(State::Init, s) {
        Some(st) => is_accepting(st),
        None => false,
    }
}

/// Reading one more byte is one more step.
pub proof fn lemma_run_push(st: State, q: Seq<u8>, b: u8)
    ensures
        run_from(st, q.push(b)) == match run_from(st, q) {
            Some(s2) => step(s2, b),
            None => None,
        },
{
    assert(q.push(b).drop_last() =~= q);
}

/// Once rejected, a prefix stays rejected.
pub proof fn lemma_run_dead(st: State, s: Seq<u8>, k: int)
    requires
        0 <= k <= s.len(),
        run_from(st, s.take(k)) is None,
    ensures
        run_from(st, s) is None,
    decreases s.len() - k,
{
    if k < s.len() {
        lemma_run_push(st, s.take(k), s[k]);
        assert(s.take(k).push(s[k]) =~= s.take(k + 1));
        lemma_run_dead(st, s, k + 1);
    } else {
        assert(s.take(k) =~= s);
    }
}

/// Reading `p + q` is reading `p`, then `q`.
pub proof fn lemma_run_concat(st: State, p: Seq<u8>, q: Seq<u8>)
    ensures
        run_from(st, p + q) == match run_from(st, p) {
            Some(s2) => run_from(s2, q),
            None => None,
        },
    decreases q.len(),
{
    if q.len() == 0 {
        assert(p + q =~= p);
    } else {
        lemma_run_concat(st, p, q.drop_last());
        assert((p + q).drop_last() =~= p + q.drop_last());
        assert((p + q).last() == q.last());
        match run_from(st, p) {
            Some(s2) => {},
            None => {},
        }
    }
}

/// A state that loops on digits stays put over a run of digits.
pub proof fn lemma_run_digits(st: State, t: Seq<u8>)
    requires
        st == State::NonZero || st == State::FractionalRest || st == State::ExponentRest,
        forall|k: int| 0 <= k < t.len() ==> is_digit(#[trigger] t[k]),
    ensures
        run_from(st, t) == Some(st),
    decreases t.len(),
{
    if t.len() > 0 {
        let u = t.drop_last();
        assert forall|k: int| 0 <= k < u.len() implies is_digit(#[trigger] u[k]) by {
            assert(u[k] == t[k]);
        }
        lemma_run_digits(st, u);
        assert(is_digit(t[t.len() - 1]));
    }
}

/// A run of digits after `s0` reaches `s1`, where the first digit leads from
/// `s0` to the looping state `s1`.
pub proof fn lemma_run_first_then_digits(s0: State, s1: State, t: Seq<u8>)
    requires
        t.len() > 0,
        step(s0, t[0]) == Some(s1),
        s1 == State::NonZero || s1 == State::FractionalRest || s1 == State::ExponentRest,
        forall|k: int| 0 <= k < t.len() ==> is_digit(#[trigger] t[k]),
    ensures
        run_from(s0, t) == Some(s1),
{
    let head = t.take(1);
    let tail = t.skip(1);
    assert(head + tail =~= t);
    lemma_run_concat(s0, head, tail);
    lemma_run_push(s0, Seq::<u8>::empty(), t[0]);
    assert(Seq::<u8>::empty().push(t[0]) =~= head);
    assert forall|k: int| 0 <= k < tail.len() implies is_digit(#[trigger] tail[k]) by {
        assert(tail[k] == t[k + 1]);
    }
    lemma_run_digits(s1, tail);
}

/// Every word of the grammar is accepted.
pub proof fn lemma_complete(s: Seq<u8>, m: Seq<u8>, i: Seq<u8>, f: Seq<u8>, e: Seq<u8>)
    requires
        is_split(s, m, i, f, e),
    ensures
        accepts(s),
{
    let init = State::Init;
    // the sign
    let s_m = if m.len() == 0 {
        State::Init
    } else {
        State::FirstDigit
    };
    if m.len() > 0 {
        lemma_run_push(init, Seq::<u8>::empty(), MINUS);
        assert(Seq::<u8>::empty().push(MINUS) =~= m);
    }
    assert(run_from(init, m) == Some(s_m));
    // the integer part
    let s_i = if i[0] == ZERO {
        State::Zero
    } else {
        State::NonZero
    };
    if i[0] == ZERO {
        lemma_run_push(s_m, Seq::<u8>::empty(), ZERO);
        assert(Seq::<u8>::empty().push(ZERO) =~= i);
    } else {
        lemma_run_first_then_digits(s_m, State::NonZero, i);
    }
    lemma_run_concat(init, m, i);
    assert(run_from(init, m + i) == Some(s_i));
    // the fraction
    let s_f = if f.len() == 0 {
        s_i
    } else {
        State::FractionalRest
    };
    if f.len() > 0 {
        let d = f.drop_first();
        assert(f =~= seq![DOT] + d);
        lemma_run_push(s_i, Seq::<u8>::empty(), DOT);
        assert(Seq::<u8>::empty().push(DOT) =~= seq![DOT]);
        lemma_run_concat(s_i, seq![DOT], d);
        assert forall|k: int| 0 <= k < d.len() implies is_digit(#[trigger] d[k]) by {}
        lemma_run_first_then_digits(State::FractionalFirst, State::FractionalRest, d);
    }
    lemma_run_concat(init, m + i, f);
    assert(run_from(init, m + i + f) == Some(s_f));
    // the exponent
    if e.len() > 0 {
        let marker = seq![e[0]];
        let rest = e.drop_first();
        assert(e =~= marker + rest);
        lemma_run_push(s_f, Seq::<u8>::empty(), e[0]);
        assert(Seq::<u8>::empty().push(e[0]) =~= marker);
        lemma_run_concat(s_f, marker, rest);
        assert(run_from(s_f, marker) == Some(State::ExponentSign));
        if is_digits(rest) {
            lemma_run_first_then_digits(State::ExponentSign, State::ExponentRest, rest);
        } else {
            let sg = seq![rest[0]];
            let ds = rest.drop_first();
            assert(ds =~= e.skip(2));
            assert(rest =~= sg + ds);
            lemma_run_push(State::ExponentSign, Seq::<u8>::empty(), rest[0]);
            assert(Seq::<u8>::empty().push(rest[0]) =~= sg);
            lemma_run_concat(State::ExponentSign, sg, ds);
            lemma_run_first_then_digits(State::ExponentFirst, State::ExponentRest, ds);
        }
        lemma_run_concat(init, m + i + f, e);
    } else {
        assert(m + i + f + e =~= m + i + f);
    }
}

/// The mantissa of `p`: the integer part from `a` to `b`, then the fraction
/// (possibly empty) from `b` to `c`.
pub open spec fn is_mantissa_at(p: Seq<u8>, a: int, b: int, c: int) -> bool {
    is_int_part(p.subrange(a, b)) && (b == c || is_frac_part(p.subrange(b, c)))
}

/// What a prefix `p` that the recognizer read into `st` looks like: the sign
/// ends at `a`, the integer part at `b`, the fraction at `c`.
pub open spec fn shape(st: State, p: Seq<u8>, a: int, b: int, c: int) -> bool {
    &&& 0 <= a <= b <= c <= p.len()
    &&& a == 0 || (a == 1 && p[0] == MINUS)
    &&& match st {
        State::Init => p.len() == 0,
        State::FirstDigit => p.len() == 1 && a == 1,
        State::Zero => b == c == p.len() && p.subrange(a, b) == seq![ZERO],
        State::NonZero => b == c == p.len() && is_int_part(p.subrange(a, b)) && p[a] != ZERO,
        State::FractionalFirst => is_int_part(p.subrange(a, b)) && b == c && p.len() == b + 1
            && p[b] == DOT,
        State::FractionalRest => is_mantissa_at(p, a, b, c) && b < c && c == p.len(),
        State::ExponentSign => is_mantissa_at(p, a, b, c) && p.len() == c + 1 && is_exp_marker(
            p[c],
        ),
        State::ExponentFirst => is_mantissa_at(p, a, b, c) && p.len() == c + 2 && is_exp_marker(
            p[c],
        ) && is_exp_sign(p[c + 1]),
        State::ExponentRest => is_mantissa_at(p, a, b, c) && is_exp_part(p.subrange(c, p.len() as int)),
    }
}

proof fn lemma_push_subrange(p: Seq<u8>, x: u8, i: int, j: int)
    requires
        0 <= i <= j <= p.len(),
    ensures
        p.push(x).subrange(i, j) == p.subrange(i, j),
        j < p.len() || p.push(x).subrange(i, p.len() + 1 as int) == p.subrange(i, j).push(x),
{
    assert(p.push(x).subrange(i, j) =~= p.subrange(i, j));
    if j == p.len() {
        assert(p.push(x).subrange(i, p.len() + 1 as int) =~= p.subrange(i, j).push(x));
    }
}

proof fn lemma_digits_push(t: Seq<u8>, x: u8)
    requires
        forall|k: int| 0 <= k < t.len() ==> is_digit(#[trigger] t[k]),
        is_digit(x),
    ensures
        is_digits(t.push(x)),
        t.push(x)[0] == if t.len() == 0 { x } else { t[0] },
{
    assert forall|k: int| 0 <= k < t.push(x).len() implies is_digit(#[trigger] t.push(x)[k]) by {
        if k < t.len() {
            assert(t.push(x)[k] == t[k]);
        }
    }
}

proof fn lemma_mantissa_push(p: Seq<u8>, x: u8, a: int, b: int, c: int)
    requires
        0 <= a <= b <= c <= p.len(),
        is_mantissa_at(p, a, b, c),
    ensures
        is_mantissa_at(p.push(x), a, b, c),
{
    lemma_push_subrange(p, x, a, b);
    lemma_push_subrange(p, x, b, c);
}

/// One step of the recognizer keeps the shape.
proof fn lemma_shape_step(st: State, p: Seq<u8>, a: int, b: int, c: int, x: u8) -> (r: (
    int,
    int,
    int,
))
    requires
        shape(st, p, a, b, c),
        step(st, x) is Some,
    ensures
        shape(step(st, x)->0, p.push(x), r.0, r.1, r.2),
{
    let q = p.push(x);
    let n = p.len() as int;
    assert(q[n] == x);
    if a == 1 {
        assert(q[0] == p[0]);
    }
    match st {
        State::Init => {
            if x == MINUS {
                (1, 1, 1)
            } else {
                assert(q.subrange(0, 1) =~= seq![x]);
                lemma_digits_push(Seq::<u8>::empty(), x);
                assert(seq![x] =~= Seq::<u8>::empty().push(x));
                (0, 1, 1)
            }
        },
        State::FirstDigit => {
            assert(q.subrange(1, 2) =~= seq![x]);
            lemma_digits_push(Seq::<u8>::empty(), x);
            assert(seq![x] =~= Seq::<u8>::empty().push(x));
            (1, 2, 2)
        },
        State::Zero => {
            lemma_push_subrange(p, x, a, b);
            (a, b, b)
        },
        State::NonZero => {
            lemma_push_subrange(p, x, a, b);
            if is_digit(x) {
                lemma_digits_push(p.subrange(a, b), x);
                assert(q[a] == p[a]);
                (a, n + 1, n + 1)
            } else {
                (a, b, b)
            }
        },
        State::FractionalFirst => {
            lemma_push_subrange(p, x, a, b);
            let f = q.subrange(b, n + 1);
            assert(f =~= seq![DOT, x]);
            assert(f.drop_first() =~= seq![x]);
            (a, b, n + 1)
        },
        State::FractionalRest => {
            lemma_mantissa_push(p, x, a, b, c);
            if is_digit(x) {
                lemma_push_subrange(p, x, a, b);
                lemma_push_subrange(p, x, b, c);
                let f = p.subrange(b, c);
                lemma_digits_push(f.drop_first(), x);
                assert(f.push(x).drop_first() =~= f.drop_first().push(x));
                (a, b, n + 1)
            } else {
                (a, b, c)
            }
        },
        State::ExponentSign => {
            lemma_mantissa_push(p, x, a, b, c);
            let e = q.subrange(c, n + 1);
            assert(e =~= seq![q[c], x]);
            if is_digit(x) {
                assert(e.drop_first() =~= seq![x]);
            }
            (a, b, c)
        },
        State::ExponentFirst => {
            lemma_mantissa_push(p, x, a, b, c);
            let e = q.subrange(c, n + 1);
            assert(e =~= seq![q[c], q[c + 1], x]);
            assert(e.skip(2) =~= seq![x]);
            (a, b, c)
        },
        State::ExponentRest => {
            lemma_mantissa_push(p, x, a, b, c);
            lemma_push_subrange(p, x, c, n);
            let e = p.subrange(c, n);
            assert(q.subrange(c, n + 1) =~= e.push(x));
            if is_digits(e.drop_first()) {
                lemma_digits_push(e.drop_first(), x);
                assert(e.push(x).drop_first() =~= e.drop_first().push(x));
            } else {
                lemma_digits_push(e.skip(2), x);
                assert(e.push(x).skip(2) =~= e.skip(2).push(x));
            }
            (a, b, c)
        },
    }
}

/// The shape of every prefix that the recognizer has not rejected.
proof fn lemma_shape_of(s: Seq<u8>, k: int) -> (r: (int, int, int))
    requires
        0 <= k <= s.len(),
        run_from(State::Init, s.take(k)) is Some,
    ensures
        shape(run_from(State::Init, s.take(k))->0, s.take(k), r.0, r.1, r.2),
    decreases k,
{
    if k == 0 {
        (0, 0, 0)
    } else {
        let p = s.take(k - 1);
        assert(p.push(s[k - 1]) =~= s.take(k));
        lemma_run_push(State::Init, p, s[k - 1]);
        if run_from(State::Init, p) is None {
            assert(false);
        }
        let (a, b, c) = lemma_shape_of(s, k - 1);
        lemma_shape_step(run_from(State::Init, p)->0, p, a, b, c, s[k - 1])
    }
}

/// Every accepted word is in the grammar.
pub proof fn lemma_sound(s: Seq<u8>)
    requires
        accepts(s),
    ensures
        is_number(s),
{
    assert(s.take(s.len() as int) =~= s);
    let (a, b, c) = lemma_shape_of(s, s.len() as int);
    let st = run_from(State::Init, s)->0;
    let n = s.len() as int;
    let m = s.subrange(0, a);
    let i = s.subrange(a, b);
    let f = s.subrange(b, c);
    let e = s.subrange(c, n);
    assert(s =~= m + i + f + e);
    if a == 1 {
        assert(m =~= seq![MINUS]);
    }
    if st == State::Zero {
        assert(i =~= seq![ZERO]);
        assert(is_digit(i[0]));
    }
    assert(is_split(s, m, i, f, e));
}

/// The recognizer decides the grammar.
pub proof fn lemma_accepts_iff_number(s: Seq<u8>)
    ensures
        accepts(s) <==> is_number(s),
{
    if accepts(s) {
        lemma_sound(s);
    }
    if is_number(s) {
        let (m, i, f, e) = choose|m: Seq<u8>, i: Seq<u8>, f: Seq<u8>, e: Seq<u8>|
            is_split(s, m, i, f, e);
        lemma_complete(s, m, i, f, e);
    }
}

/// A split of a JSON number into its parts.
pub proof fn lemma_split(s: Seq<u8>) -> (r: (Seq<u8>, Seq<u8>, Seq<u8>, Seq<u8>))
    requires
        is_number(s),
    ensures
        is_split(s, r.0, r.1, r.2, r.3),
{
    choose|m: Seq<u8>, i: Seq<u8>, f: Seq<u8>, e: Seq<u8>| is_split(s, m, i, f, e)
}

/// Which bytes stand where in a split JSON number: the sign before `a`,
/// digits up to `b`, the fraction's point at `b` and its digits up to `c`,
/// then the exponent marker at `c` and signs or digits after it.
pub proof fn lemma_layout(s: Seq<u8>, m: Seq<u8>, i: Seq<u8>, f: Seq<u8>, e: Seq<u8>)
    requires
        is_split(s, m, i, f, e),
    ensures
        s.len() == m.len() + i.len() + f.len() + e.len(),
        i.len() > 0,
        forall|k: int| 0 <= k < m.len() ==> s[k] == MINUS,
        forall|k: int| m.len() <= k < m.len() + i.len() ==> is_digit(#[trigger] s[k]),
        f.len() > 0 ==> s[m.len() + i.len() as int] == DOT,
        forall|k: int|
            m.len() + i.len() < k < m.len() + i.len() + f.len() ==> is_digit(#[trigger] s[k]),
        e.len() > 0 ==> is_exp_marker(s[m.len() + i.len() + f.len() as int]),
        forall|k: int|
            m.len() + i.len() + f.len() < k < s.len() ==> is_digit(#[trigger] s[k]) || is_exp_sign(
                s[k],
            ),
{
    let a = m.len() as int;
    let b = a + i.len();
    let c = b + f.len();
    assert forall|k: int| a <= k < b implies is_digit(#[trigger] s[k]) by {
        assert(s[k] == i[k - a]);
    }
    if f.len() > 0 {
        assert(s[b] == f[0]);
    }
    assert forall|k: int| b < k < c implies is_digit(#[trigger] s[k]) by {
        assert(s[k] == f[k - b]);
        assert(f[k - b] == f.drop_first()[k - b - 1]);
    }
    if e.len() > 0 {
        assert(s[c] == e[0]);
    }
    assert forall|k: int| c < k < s.len() implies is_digit(#[trigger] s[k]) || is_exp_sign(s[k]) by {
        assert(s[k] == e[k - c]);
        if k == c + 1 && !is_digits(e.drop_first()) {
        } else if is_digits(e.drop_first()) {
            assert(e[k - c] == e.drop_first()[k - c - 1]);
        } else {
            assert(e[k - c] == e.skip(2)[k - c - 2]);
        }
    }
    assert forall|k: int| 0 <= k < a implies s[k] == MINUS by {
        assert(s[k] == m[k]);
    }
}

/// The bytes of a JSON number are ASCII.
pub proof fn lemma_ascii(s: Seq<u8>)
    requires
        is_number(s),
    ensures
        forall|k: int| 0 <= k < s.len() ==> #[trigger] s[k] < 128,
{
    let (m, i, f, e) = lemma_split(s);
    lemma_layout(s, m, i, f, e);
    assert forall|k: int| 0 <= k < s.len() implies #[trigger] s[k] < 128 by {
        if m.len() <= k < m.len() + i.len() {
            assert(is_digit(s[k]));
        } else if m.len() + i.len() < k < m.len() + i.len() + f.len() {
            assert(is_digit(s[k]));
        } else if m.len() + i.len() + f.len() < k {
            assert(is_digit(s[k]) || is_exp_sign(s[k]));
        }
    }
}

/// Before the exponent, a `-` can only lead a JSON number.
pub proof fn lemma_minus_leads(s: Seq<u8>, k: int)
    requires
        is_number(s),
        0 < k < s.len(),
        forall|j: int| 0 <= j <= k ==> !is_exp_marker(#[trigger] s[j]),
    ensures
        s[k] != MINUS,
{
    let (m, i, f, e) = lemma_split(s);
    lemma_layout(s, m, i, f, e);
    let c = (m.len() + i.len() + f.len()) as int;
    if k >= c {
        assert(!is_exp_marker(s[c]));
    } else if k >= m.len() + i.len() + 1 {
        assert(is_digit(s[k]));
    } else if k >= m.len() {
        assert(k == m.len() + i.len() || is_digit(s[k]));
    }
}

/// A `.` comes once in a JSON number, after a digit and before any
/// exponent.
pub proof fn lemma_point_once(s: Seq<u8>, k: int)
    requires
        is_number(s),
        0 <= k < s.len(),
        s[k] == DOT,
    ensures
        k > 0,
        forall|j: int| 0 <= j < k ==> #[trigger] s[j] != DOT && !is_exp_marker(s[j]),
        forall|j: int| k < j < s.len() ==> #[trigger] s[j] != DOT,
{
    let (m, i, f, e) = lemma_split(s);
    lemma_layout(s, m, i, f, e);
    let a = m.len() as int;
    let b = a + i.len();
    let c = b + f.len();
    if a <= k < b {
        assert(is_digit(s[k]));
    } else if b < k < c {
        assert(is_digit(s[k]));
    } else if c < k {
        assert(is_digit(s[k]) || is_exp_sign(s[k]));
    } else if k == c && e.len() > 0 {
        assert(is_exp_marker(s[c]));
    }
    assert(k == b);
    assert forall|j: int| 0 <= j < k implies #[trigger] s[j] != DOT && !is_exp_marker(s[j]) by {
        if j >= a {
            assert(is_digit(s[j]));
        }
    }
    assert forall|j: int| k < j < s.len() implies #[trigger] s[j] != DOT by {
        if j < c {
            assert(is_digit(s[j]));
        } else if j > c {
            assert(is_digit(s[j]) || is_exp_sign(s[j]));
        } else {
            assert(is_exp_marker(s[c]));
        }
    }
}

} // verus!
