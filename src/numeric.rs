//! The decimal text form of a fraction: `[-]digits[.digits]`.

use vstd::prelude::*;
use vstd::arithmetic::power::pow;
use vstd::string::{StrSliceExecFns, StringExecFns};
use crate::integer::{
    Integer, all_digits, digit_char, digits_value, integer_literal_value, is_digit,
    is_integer_literal, is_literal, last_index_of, lemma_digit_char_value, lemma_last_index_of_is, lemma_nat_digits, nat_digits,
};
use crate::fraction::{Fraction, FractionError, abs, denotes, floor_q, gcd, is_reduced, reduce};
use crate::lowest_terms::{
    lemma_common_divisor_divides_gcd, lemma_gcd_scale, lemma_reduce_is_reduced,
    lemma_reduce_reduced, lemma_reduced_unique,
};
use vstd::arithmetic::div_mod::{lemma_fundamental_div_mod, lemma_fundamental_div_mod_converse};

verus! {

/// At most `k` digits of the decimal expansion of `rem / den` (with
/// `rem < den`), cut off, not rounded; stops early once nothing remains.
pub open spec fn fraction_digits(rem: nat, den: nat, k: nat) -> Seq<char>
    decreases k,
{
    if k == 0 || rem == 0 || den == 0 {
        seq![]
    } else {
        seq![digit_char((rem * 10) / den)] + fraction_digits((rem * 10) % den, den, (k - 1) as nat)
    }
}

/// The text that `to_string_numeric` gives for `n / d` (`d > 0`) with at most
/// `k` digits after the point; a `-` stands only before a text that is not
/// all zeros.
pub open spec fn numeric_text(n: int, d: int, k: nat) -> Seq<char> {
    let m = abs(n);
    let rem = (m % (d as nat)) as nat;
    let sign: Seq<char> = if n < 0 && (m / (d as nat) != 0 || (rem != 0 && k > 0)) {
        seq!['-']
    } else {
        seq![]
    };
    let tail: Seq<char> = if rem != 0 && k > 0 {
        seq!['.'] + fraction_digits(rem, d as nat, k)
    } else {
        seq![]
    };
    sign + nat_digits(m / (d as nat)) + tail
}

/// `[-]digits[.digits]`.
pub open spec fn is_numeric(s: Seq<char>) -> bool {
    let p = last_index_of(s, '.');
    if p < 0 {
        is_integer_literal(s)
    } else {
        is_integer_literal(s.subrange(0, p)) && all_digits(s.subrange(p + 1, s.len() as int))
    }
}

/// The unreduced value of a numeric string: its digits with the point taken
/// out, over ten to the number of digits after the point.
pub open spec fn numeric_value(s: Seq<char>) -> (int, int) {
    let p = last_index_of(s, '.');
    if p < 0 {
        (integer_literal_value(s), 1)
    } else {
        let tail = s.subrange(p + 1, s.len() as int);
        (integer_literal_value(s.subrange(0, p) + tail), pow(10, tail.len()))
    }
}

proof fn lemma_literal_then_digits(head: Seq<char>, tail: Seq<char>)
    requires
        is_integer_literal(head),
        all_digits(tail),
    ensures
        is_integer_literal(head + tail),
{
    let j = head + tail;
    if all_digits(head) {
        assert forall|i: int| 0 <= i < j.len() implies is_digit(#[trigger] j[i]) by {
            if i >= head.len() {
                assert(j[i] == tail[i - head.len()]);
            }
        }
    } else {
        assert(j.drop_first() == head.drop_first() + tail);
        let h = head.drop_first();
        let k = j.drop_first();
        assert forall|i: int| 0 <= i < k.len() implies is_digit(#[trigger] k[i]) by {
            if i >= h.len() {
                assert(k[i] == tail[i - h.len()]);
            } else {
                assert(k[i] == h[i]);
            }
        }
    }
}

proof fn lemma_pow10_step(k: nat)
    requires
        k > 0,
    ensures
        pow(10, k) == 10 * pow(10, (k - 1) as nat),
        pow(10, 0) == 1,
{
    reveal(pow);
}

/// The value of digits written one after the other.
proof fn lemma_digits_concat(a: Seq<char>, b: Seq<char>)
    ensures
        digits_value(a + b) == digits_value(a) * pow(10, b.len()) + digits_value(b),
    decreases b.len(),
{
    reveal(pow);
    if b.len() == 0 {
        assert(a + b =~= a);
        assert(digits_value(b) == 0);
    } else {
        let bl = b.drop_last();
        assert((a + b).drop_last() =~= a + bl);
        assert((a + b).last() == b.last());
        lemma_digits_concat(a, bl);
        lemma_pow10_step(b.len());
        let x = digits_value(a);
        let pb = pow(10, bl.len());
        assert(digits_value(a + b) == (x * pb + digits_value(bl)) * 10 + crate::integer::digit_value(b.last()));
        assert((x * pb + digits_value(bl)) * 10 == x * (10 * pb) + digits_value(bl) * 10) by (nonlinear_arith);
    }
}

/// The digits of `r / d` cut off after `k` places are exact when `r * 10^k`
/// is a multiple of `d`.
proof fn lemma_fraction_digits(r: nat, d: nat, k: nat)
    requires
        d > 0,
        r < d,
        (r * pow(10, k)) % (d as int) == 0,
    ensures
        r * pow(10, fraction_digits(r, d, k).len()) == d * digits_value(fraction_digits(r, d, k)),
        forall|i: int| 0 <= i < fraction_digits(r, d, k).len() ==> is_digit(#[trigger] fraction_digits(r, d, k)[i]),
        r != 0 && k > 0 ==> fraction_digits(r, d, k).len() > 0,
    decreases k,
{
    reveal(pow);
    let f = fraction_digits(r, d, k);
    if k == 0 || r == 0 {
        assert(pow(10, 0) == 1);
        if k == 0 {
            vstd::arithmetic::div_mod::lemma_small_mod(r, d);
            assert(r * 1 == r);
        }
        assert(f.len() == 0);
        assert(digits_value(f) == 0);
    } else {
        let c = (r * 10) / d;
        let r2 = (r * 10) % d;
        lemma_fundamental_div_mod((r * 10) as int, d as int);
        assert(c < 10) by (nonlinear_arith)
            requires
                r * 10 == d * c + r2,
                r < d,
                r2 >= 0,
        ;
        lemma_pow10_step(k);
        let p1 = pow(10, (k - 1) as nat);
        let x = r * pow(10, k);
        lemma_fundamental_div_mod(x as int, d as int);
        let j = x / (d as int);
        assert(r2 * p1 == d * (j - c * p1)) by (nonlinear_arith)
            requires
                r * 10 == d * c + r2,
                x == r * (10 * p1),
                x == d * j,
        ;
        vstd::arithmetic::power::lemma_pow_positive(10, (k - 1) as nat);
        assert(r2 * p1 >= 0) by (nonlinear_arith)
            requires
                r2 >= 0,
                p1 > 0,
        ;
        lemma_fundamental_div_mod_converse((r2 * p1) as int, d as int, j - c * p1, 0);
        lemma_fraction_digits(r2, d, (k - 1) as nat);
        let f2 = fraction_digits(r2, d, (k - 1) as nat);
        let head = seq![digit_char(c)];
        assert(f == head + f2);
        lemma_digit_char_value(c);
        assert(head.drop_last() =~= Seq::<char>::empty());
        assert(digits_value(Seq::<char>::empty()) == 0);
        assert(digits_value(head) == c);
        lemma_digits_concat(head, f2);
        let p2 = pow(10, f2.len());
        lemma_pow10_step(f.len());
        assert(pow(10, f.len()) == 10 * p2);
        assert(r * (10 * p2) == d * (c * p2 + digits_value(f2))) by (nonlinear_arith)
            requires
                r * 10 == d * c + r2,
                r2 * p2 == d * digits_value(f2),
        ;
        assert forall|i: int| 0 <= i < f.len() implies is_digit(#[trigger] f[i]) by {
            if i > 0 {
                assert(f[i] == f2[i - 1]);
            }
        }
    }
}

/// A fraction in lowest terms whose denominator divides `10^k` is rendered
/// with at most `k` digits after the point exactly, and the text reads back
/// as the same fraction.
pub proof fn lemma_numeric_text_round_trip(p: (int, int), k: nat)
    requires
        is_reduced(p),
        pow(10, k) % p.1 == 0,
    ensures
        is_numeric(numeric_text(p.0, p.1, k)),
        reduce(numeric_value(numeric_text(p.0, p.1, k)).0, numeric_value(numeric_text(p.0, p.1, k)).1) == p,
{
    let t = numeric_text(p.0, p.1, k);
    let m = abs(p.0);
    let d = p.1 as nat;
    let q = m / d;
    let r = m % d;
    let sign: Seq<char> = if p.0 < 0 { seq!['-'] } else { seq![] };
    let digits = nat_digits(q);
    let head = sign + digits;
    lemma_nat_digits(q);
    lemma_fundamental_div_mod(m as int, d as int);
    assert(is_integer_literal(head) && integer_literal_value(head) == (if p.0 < 0 { -q } else { q as int })) by {
        if p.0 < 0 {
            assert(head.drop_first() =~= digits);
        } else {
            assert(head =~= digits);
        }
    }
    assert forall|j: int| 0 <= j < head.len() implies #[trigger] head[j] != '.' by {
        if p.0 < 0 && j == 0 {
        } else {
            let i = if p.0 < 0 { j - 1 } else { j };
            assert(head[j] == digits[i]);
            assert(is_digit(digits[i]));
        }
    }
    vstd::arithmetic::power::lemma_pow_positive(10, k);
    lemma_fundamental_div_mod(pow(10, k), d as int);
    let w = pow(10, k) / (d as int);
    assert(p.0 < 0 ==> (q != 0 || (r != 0 && k > 0))) by {
        if p.0 < 0 && q == 0 && !(r != 0 && k > 0) {
            if k == 0 {
                assert(pow(10, 0) == 1) by {
                    reveal(pow);
                }
                assert(d == 1) by (nonlinear_arith)
                    requires
                        1 == d * w,
                        d > 0,
                ;
            }
            assert(m == r) by (nonlinear_arith)
                requires
                    m == d * q + r,
                    q == 0,
            ;
        }
    }
    if r == 0 || k == 0 {
        if k == 0 {
            assert(pow(10, 0) == 1) by {
                reveal(pow);
            }
            assert(d == 1) by (nonlinear_arith)
                requires
                    1 == d * w,
                    d > 0,
            ;
        } else {
            lemma_gcd_scale(d, q, 1);
            assert(q % 1 == 0 && gcd(1, 0) == 1);
            assert(gcd(q, 1) == 1);
            assert(d * q == m && d * 1 == d);
            assert(d == 1);
        }
        assert(t =~= head);
        lemma_last_index_of_is(t, '.', -1);
        assert(q == m) by (nonlinear_arith)
            requires
                m == d * q + r,
                d == 1,
                0 <= r < d,
        ;
        lemma_reduce_reduced(p);
    } else {
        assert((r * pow(10, k)) % (d as int) == 0) by {
            assert(r * pow(10, k) == d * (r * w)) by (nonlinear_arith)
                requires
                    pow(10, k) == d * w,
            ;
            lemma_fundamental_div_mod_converse(r * pow(10, k), d as int, r * w, 0);
        }
        lemma_fraction_digits(r, d, k);
        let f = fraction_digits(r, d, k);
        assert(t =~= head + seq!['.'] + f);
        let pos = head.len() as int;
        assert forall|j: int| pos < j < t.len() implies #[trigger] t[j] != '.' by {
            assert(t[j] == f[j - pos - 1]);
            assert(is_digit(f[j - pos - 1]));
        }
        lemma_last_index_of_is(t, '.', pos);
        assert(t.subrange(0, pos) =~= head);
        assert(t.subrange(pos + 1, t.len() as int) =~= f);
        assert(all_digits(f));
        lemma_digits_concat(digits, f);
        let pf = pow(10, f.len());
        vstd::arithmetic::power::lemma_pow_positive(10, f.len());
        let mag = q * pf + digits_value(f);
        assert(digits_value(digits + f) == mag);
        let joined = head + f;
        if p.0 < 0 {
            assert(joined[0] == '-');
            assert(joined.drop_first() =~= digits + f);
        } else {
            assert(joined =~= digits + f);
            assert(is_digit(digits[0]));
        }
        let n = if p.0 < 0 { -mag } else { mag as int };
        assert(integer_literal_value(joined) == n);
        assert(numeric_value(t) == (n, pf));
        assert(mag * d == m * pf) by (nonlinear_arith)
            requires
                mag == q * pf + digits_value(f),
                r * pf == d * digits_value(f),
                m == d * q + r,
        ;
        assert(n * d == p.0 * pf) by (nonlinear_arith)
            requires
                mag * d == m * pf,
                (p.0 < 0 && n == -mag && p.0 == -m) || (p.0 >= 0 && n == mag && p.0 == m),
        ;
        lemma_reduce_is_reduced(n, pf);
        let red = reduce(n, pf);
        assert(red.0 * d == p.0 * red.1) by (nonlinear_arith)
            requires
                red.0 * pf == n * red.1,
                n * d == p.0 * pf,
                pf > 0,
        ;
        lemma_reduced_unique(red, p);
    }
}

/// Rounding `x` down to a multiple of a positive accuracy `a`, rendering the
/// result with `k` digits after the point, where `a` itself needs no more than
/// `k` (`10^k` is a multiple of its denominator), and reading the text back
/// gives the rounded value again.
pub proof fn lemma_floor_numeric_round_trip(x: (int, int), a: (int, int), lo: (int, int), k: nat)
    requires
        is_reduced(x),
        is_reduced(a),
        a.0 > 0,
        denotes(lo, floor_q(x.0 * a.1, x.1 * a.0) * a.0, a.1),
        pow(10, k) % a.1 == 0,
    ensures
        is_numeric(numeric_text(lo.0, lo.1, k)),
        reduce(numeric_value(numeric_text(lo.0, lo.1, k)).0, numeric_value(numeric_text(lo.0, lo.1, k)).1) == lo,
{
    let big_k = floor_q(x.0 * a.1, x.1 * a.0) * a.0;
    let n1 = abs(lo.0);
    let d1 = lo.1 as nat;
    let d2 = a.1 as nat;
    let m = abs(big_k);
    assert(n1 * d2 == m * d1) by (nonlinear_arith)
        requires
            lo.0 * a.1 == big_k * lo.1,
            n1 == abs(lo.0),
            m == abs(big_k),
            d1 == lo.1,
            d2 == a.1,
            d1 > 0,
            d2 > 0,
    ;
    lemma_gcd_scale(d2, n1, d1);
    assert(d2 * n1 == m * d1 && gcd(d2 * n1, d2 * d1) == d2 * 1);
    lemma_fundamental_div_mod_converse((m * d1) as int, d1 as int, m as int, 0);
    lemma_fundamental_div_mod_converse((d2 * d1) as int, d1 as int, d2 as int, 0);
    lemma_common_divisor_divides_gcd(d2 * n1, d2 * d1, d1);
    lemma_fundamental_div_mod(d2 as int, d1 as int);
    lemma_fundamental_div_mod(pow(10, k), d2 as int);
    let w1 = pow(10, k) / (d2 as int);
    let w2 = (d2 as int) / (d1 as int);
    assert(pow(10, k) == d1 * (w2 * w1) + 0) by (nonlinear_arith)
        requires
            pow(10, k) == d2 * w1 + 0,
            d2 == d1 * w2 + 0,
    ;
    lemma_fundamental_div_mod_converse(pow(10, k), d1 as int, w2 * w1, 0);
    lemma_numeric_text_round_trip(lo, k);
}

fn pow10(k: usize) -> (r: Integer)
    ensures
        r@ == pow(10, k as nat),
{
    let ten = Integer::from_i64(10);
    let mut r = Integer::from_i64(1);
    let mut i: usize = 0;
    assert(pow(10, 0) == 1) by {
        reveal(pow);
    }
    while i < k
        invariant
            i <= k,
            ten@ == 10,
            r@ == pow(10, i as nat),
        decreases k - i,
    {
        r = r.mul(&ten);
        i = i + 1;
        assert(r@ == pow(10, i as nat)) by {
            reveal(pow);
        }
    }
    r
}

fn all_digit_chars(s: &str) -> (r: bool)
    ensures
        r == all_digits(s@),
{
    let n = s.unicode_len();
    if n == 0 {
        return false;
    }
    let mut i: usize = 0;
    while i < n
        invariant
            i <= n,
            n == s@.len(),
            forall|j: int| 0 <= j < i ==> is_digit(#[trigger] s@[j]),
        decreases n - i,
    {
        let c = s.get_char(i);
        if !('0' <= c && c <= '9') {
            assert(!is_digit(s@[i as int]));
            return false;
        }
        i = i + 1;
    }
    true
}

impl Fraction {
    /// Decimal text of the value: the digits of the whole part and, when
    /// something is left and `max_digits > 0`, a point and at most
    /// `max_digits` digits of the rest, cut off rather than rounded; a `-`
    /// before them when the value is negative and they are not all zeros
    /// (-1/2 gives `-0.5`, or `0` with no digits after the point).
    pub fn to_string_numeric(&self, max_digits: usize) -> (r: String)
        requires
            self.wf(),
        ensures
            r@ == numeric_text(self@.0, self@.1, max_digits as nat),
    {
        let a = self.abs();
        let m = a.numer();
        let d = a.denom();
        let (whole, first) = m.div_rem(d);
        let mut out = String::new();
        if self.is_negative() && (!whole.is_zero() || (!first.is_zero() && max_digits > 0)) {
            out.append("-");
        }
        let w = whole.to_decimal_string();
        out.append(w.as_str());
        proof {
            reveal_strlit("-");
            reveal_strlit(".");
        }
        let ghost prefix = out@;
        let ghost sign: Seq<char> = if self@.0 < 0 && (whole@ != 0 || (first@ != 0 && max_digits > 0)) {
            seq!['-']
        } else {
            seq![]
        };
        assert(prefix == sign + nat_digits(abs(self@.0) / (self@.1 as nat)));
        if first.is_zero() || max_digits == 0 {
            return out;
        }
        out.append(".");
        let ten = Integer::from_i64(10);
        let mut rem = first;
        let mut k: usize = max_digits;
        let ghost goal = prefix + seq!['.'] + fraction_digits(first@ as nat, d@ as nat, max_digits as nat);
        while k > 0 && !rem.is_zero()
            invariant
                ten@ == 10,
                d@ == self@.1,
                d@ > 0,
                0 <= rem@ < d@,
                out@ + fraction_digits(rem@ as nat, d@ as nat, k as nat) == goal,
            decreases k,
        {
            let t = rem.mul(&ten);
            let (digit, next) = t.div_rem(d);
            assert(digit@ < 10) by (nonlinear_arith)
                requires
                    digit@ == t@ / d@,
                    t@ == rem@ * 10,
                    rem@ < d@,
                    d@ > 0,
            ;
            let s = digit.to_decimal_string();
            assert(s@ == seq![digit_char(digit@ as nat)]);
            let ghost before = out@;
            out.append(s.as_str());
            assert(fraction_digits(rem@ as nat, d@ as nat, k as nat) == s@ + fraction_digits(next@ as nat, d@ as nat, (k - 1) as nat));
            assert(out@ + fraction_digits(next@ as nat, d@ as nat, (k - 1) as nat) == goal);
            rem = next;
            k = k - 1;
        }
        assert(fraction_digits(rem@ as nat, d@ as nat, k as nat) == Seq::<char>::empty());
        assert(out@ == goal);
        out
    }

    /// Reads `[-]digits[.digits]` exactly: the digits with the point taken out
    /// over ten to the number of digits after the point, in lowest terms.
    pub fn from_str_numeric(s: &str) -> (r: Result<Fraction, FractionError>)
        ensures
            !is_numeric(s@) ==> r == Err::<Fraction, FractionError>(FractionError::MalformedNumericString),
            is_numeric(s@) ==> r is Ok && r->Ok_0@ == reduce(numeric_value(s@).0, numeric_value(s@).1)
                && r->Ok_0.wf(),
    {
        let n = s.unicode_len();
        let mut i: usize = n;
        while i > 0 && s.get_char(i - 1) != '.'
            invariant
                i <= n,
                n == s@.len(),
                forall|j: int| i <= j < n ==> s@[j] != '.',
            decreases i,
        {
            i = i - 1;
        }
        proof {
            lemma_last_index_of_is(s@, '.', i - 1);
        }
        if i == 0 {
            return match Integer::parse_decimal(s) {
                Some(v) => Fraction::from_raw(v, Integer::from_i64(1)),
                None => Err(FractionError::MalformedNumericString),
            };
        }
        let head = s.substring_char(0, i - 1);
        let tail = s.substring_char(i, n);
        if !is_literal(head) || !all_digit_chars(tail) {
            return Err(FractionError::MalformedNumericString);
        }
        let mut joined = <String as StringExecFns>::from_str(head);
        joined.append(tail);
        proof {
            lemma_literal_then_digits(head@, tail@);
        }
        match Integer::parse_decimal(joined.as_str()) {
            Some(v) => {
                let den = pow10(n - i);
                proof {
                    vstd::arithmetic::power::lemma_pow_positive(10, (n - i) as nat);
                }
                Fraction::from_raw(v, den)
            },
            None => Err(FractionError::MalformedNumericString),
        }
    }
}

} // verus!
