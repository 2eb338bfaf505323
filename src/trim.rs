//! Trimming: removing the redundant trailing zeros of a fraction, and then
//! a point that is left with no digit after it.
use vstd::prelude::*;

use crate::grammar::{
    is_digit, is_exp_marker, is_number, is_split, lemma_layout, lemma_split, DOT, ZERO,
};

verus! {

pub open spec fn has_exponent_spec(s: Seq<u8>) -> bool {
    exists|k: int| 0 <= k < s.len() && is_exp_marker(#[trigger] s[k])
}

/// `s` without its trailing `0`s.
pub open spec fn strip_zeros(s: Seq<u8>) -> Seq<u8>
    decreases s.len(),
{
    if s.len() > 0 && s.last() == ZERO {
        strip_zeros(s.drop_last())
    } else {
        s
    }
}

/// The trimmed form of a lexical number: with no exponent and a fraction,
/// the fraction's trailing zeros go, and the point too if nothing is left
/// after it. A number with an exponent, or with no fraction, is unchanged.
pub open spec fn trimmed_spec(s: Seq<u8>) -> Seq<u8> {
    if has_exponent_spec(s) || !s.contains(DOT) {
        s
    } else {
        let t = strip_zeros(s);
        if t.len() > 0 && t.last() == DOT {
            t.drop_last()
        } else {
            t
        }
    }
}

/// How trimming a prefix changes when one more byte is read.
pub proof fn lemma_trim_push(p: Seq<u8>, b: u8)
    ensures
        p.push(b).contains(DOT) == (p.contains(DOT) || b == DOT),
        has_exponent_spec(p.push(b)) == (has_exponent_spec(p) || is_exp_marker(b)),
        b == DOT && !p.contains(DOT) && !has_exponent_spec(p) ==> trimmed_spec(p) == p
            && trimmed_spec(p.push(b)) == p,
        b == ZERO && p.contains(DOT) && !has_exponent_spec(p) ==> trimmed_spec(p.push(b))
            == trimmed_spec(p),
        b != DOT && !(b == ZERO && p.contains(DOT) && !has_exponent_spec(p)) ==> trimmed_spec(
            p.push(b),
        ) == p.push(b),
{
    let q = p.push(b);
    assert(q.drop_last() =~= p);
    assert(q[p.len() as int] == b);
    assert forall|k: int| 0 <= k < p.len() implies #[trigger] q[k] == p[k] by {}
    if q.contains(DOT) && !p.contains(DOT) {
        let k = choose|k: int| 0 <= k < q.len() && q[k] == DOT;
        if k < p.len() {
            assert(p[k] == DOT);
        }
    }
    if p.contains(DOT) {
        let k = choose|k: int| 0 <= k < p.len() && p[k] == DOT;
        assert(q[k] == DOT);
    }
    if b == DOT {
        assert(q[p.len() as int] == DOT);
    }
    if has_exponent_spec(q) && !has_exponent_spec(p) {
        let k = choose|k: int| 0 <= k < q.len() && is_exp_marker(#[trigger] q[k]);
        if k < p.len() {
            assert(is_exp_marker(p[k]));
        }
    }
    if has_exponent_spec(p) {
        let k = choose|k: int| 0 <= k < p.len() && is_exp_marker(#[trigger] p[k]);
        assert(is_exp_marker(q[k]));
    }
    if is_exp_marker(b) {
        assert(is_exp_marker(q[p.len() as int]));
    }
}

/// Stripping zeros keeps a prefix, which ends in a non-zero byte or is
/// empty, and drops only zeros.
pub proof fn lemma_strip_prefix(s: Seq<u8>)
    ensures
        strip_zeros(s) == s.take(strip_zeros(s).len() as int),
        strip_zeros(s).len() <= s.len(),
        strip_zeros(s).len() == 0 || strip_zeros(s).last() != ZERO,
        forall|k: int| strip_zeros(s).len() <= k < s.len() ==> #[trigger] s[k] == ZERO,
    decreases s.len(),
{
    if s.len() > 0 && s.last() == ZERO {
        let u = s.drop_last();
        lemma_strip_prefix(u);
        let n = strip_zeros(u).len() as int;
        assert(u.take(n) =~= s.take(n));
        assert forall|k: int| n <= k < s.len() implies #[trigger] s[k] == ZERO by {
            if k < u.len() {
                assert(s[k] == u[k]);
            }
        }
    } else {
        assert(s.take(s.len() as int) =~= s);
    }
}

/// Stripping zeros from `x + y`, where `y` is not made of zeros only, only
/// touches `y`.
pub proof fn lemma_strip_concat(x: Seq<u8>, y: Seq<u8>)
    requires
        strip_zeros(y).len() > 0,
    ensures
        strip_zeros(x + y) == x + strip_zeros(y),
    decreases y.len(),
{
    if y.len() > 0 && y.last() == ZERO {
        assert((x + y).drop_last() =~= x + y.drop_last());
        lemma_strip_concat(x, y.drop_last());
    } else {
        assert((x + y).last() == y.last());
    }
}

/// Trimming a JSON number gives a JSON number, and trimming is idempotent:
/// trimming the result again changes nothing.
pub proof fn lemma_trimmed_number(s: Seq<u8>)
    requires
        is_number(s),
    ensures
        is_number(trimmed_spec(s)),
        trimmed_spec(trimmed_spec(s)) == trimmed_spec(s),
{
    let (m, i, f, e) = lemma_split(s);
    lemma_layout(s, m, i, f, e);
    let a = m.len() as int;
    let b = a + i.len();
    let c = b + f.len();
    if e.len() > 0 {
        assert(is_exp_marker(s[c]));
        assert(has_exponent_spec(s));
    } else if f.len() == 0 {
        assert forall|k: int| 0 <= k < s.len() implies #[trigger] s[k] != DOT by {
            if k >= a {
                assert(is_digit(s[k]));
            }
        }
    } else {
        assert(s[b] == DOT);
        assert forall|k: int| 0 <= k < s.len() implies !is_exp_marker(#[trigger] s[k]) by {
            if a <= k < b || b < k {
                assert(is_digit(s[k]));
            }
        }
        assert(!has_exponent_spec(s));
        let d = f.drop_first();
        let head = m + i + seq![DOT];
        assert(s =~= head + d);
        lemma_strip_prefix(d);
        let z = strip_zeros(d);
        if z.len() == 0 {
            // all the fraction's digits are zeros
            lemma_strip_all_zeros(head, d);
            assert(head.drop_last() =~= m + i);
            let t = m + i;
            assert(trimmed_spec(s) == t);
            assert(is_split(t, m, i, Seq::<u8>::empty(), Seq::<u8>::empty())) by {
                assert(t =~= m + i + Seq::<u8>::empty() + Seq::<u8>::empty());
            }
            assert forall|k: int| 0 <= k < t.len() implies #[trigger] t[k] != DOT by {
                assert(t[k] == s[k]);
                if k >= a {
                    assert(is_digit(s[k]));
                }
            }
        } else {
            lemma_strip_concat(head, d);
            let t = head + z;
            assert(t.last() == z.last());
            assert(is_digit(z.last())) by {
                assert(z.last() == d[z.len() - 1]);
            }
            assert(trimmed_spec(s) == t);
            let g = seq![DOT] + z;
            assert(g.drop_first() =~= z);
            assert forall|k: int| 0 <= k < z.len() implies is_digit(#[trigger] z[k]) by {
                assert(z[k] == d[k]);
            }
            assert(t =~= m + i + g + Seq::<u8>::empty());
            assert(is_split(t, m, i, g, Seq::<u8>::empty()));
            assert(t[b] == DOT);
            assert forall|k: int| 0 <= k < t.len() implies !is_exp_marker(#[trigger] t[k]) by {
                if k < b {
                    assert(t[k] == s[k]);
                    if k >= a {
                        assert(is_digit(s[k]));
                    }
                } else if k > b {
                    assert(t[k] == z[k - b - 1]);
                }
            }
        }
    }
}

/// A tail of zeros strips away entirely.
proof fn lemma_strip_all_zeros(x: Seq<u8>, y: Seq<u8>)
    requires
        strip_zeros(y).len() == 0,
    ensures
        strip_zeros(x + y) == strip_zeros(x),
    decreases y.len(),
{
    if y.len() > 0 {
        assert(y.last() == ZERO);
        assert((x + y).drop_last() =~= x + y.drop_last());
        lemma_strip_all_zeros(x, y.drop_last());
    } else {
        assert(x + y =~= x);
    }
}

} // verus!
