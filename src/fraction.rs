//! Fractions in lowest terms, with checked arithmetic and rounding to a
//! given accuracy; the arithmetic itself is done by `num_rational`.

use vstd::prelude::*;
use num_bigint::BigInt;
use num_rational::BigRational;
use vstd::string::StrSliceExecFns;
use std::str::FromStr;
use crate::integer::{
    Integer, int_decimal, integer_literal_value, is_integer_literal, is_literal, last_index_of,
    lemma_last_index_of_is, unsigned_le,
};
use crate::lowest_terms::lemma_reduce_is_reduced;

verus! {

pub open spec fn abs(i: int) -> nat {
    if i < 0 {
        (-i) as nat
    } else {
        i as nat
    }
}

/// Greatest common divisor, by Euclid's algorithm.
pub open spec fn gcd(a: nat, b: nat) -> nat
    decreases b,
{
    if b == 0 {
        a
    } else {
        gcd(b, a % b)
    }
}

/// A numerator/denominator pair in lowest terms with a positive denominator.
pub open spec fn is_reduced(p: (int, int)) -> bool {
    p.1 > 0 && gcd(abs(p.0), p.1 as nat) == 1
}

/// The pair `n / d` divided by the greatest common divisor of its parts,
/// with the sign carried by the numerator.
pub open spec fn reduce(n: int, d: int) -> (int, int) {
    let g = gcd(abs(n), abs(d)) as int;
    if d > 0 {
        (n / g, d / g)
    } else {
        ((-n) / g, (-d) / g)
    }
}

/// `p` is in lowest terms and stands for the same number as `n / d`.
pub open spec fn denotes(p: (int, int), n: int, d: int) -> bool {
    is_reduced(p) && p.0 * d == n * p.1
}

/// Greatest integer not above `p / q` (for `q != 0`).
pub open spec fn floor_q(p: int, q: int) -> int {
    if q > 0 {
        p / q
    } else {
        (-p) / (-q)
    }
}

/// Least integer not below `p / q` (for `q != 0`).
pub open spec fn ceil_q(p: int, q: int) -> int {
    -floor_q(-p, q)
}

/// Integer nearest to `p / q` (for `q != 0`), halves away from zero.
pub open spec fn round_q(p: int, q: int) -> int {
    let (n, d) = if q > 0 { (p, q) } else { (-p, -q) };
    if n >= 0 {
        (2 * n + d) / (2 * d)
    } else {
        -((-2 * n + d) / (2 * d))
    }
}

/// `p <= q` for pairs with positive denominators.
pub open spec fn le(p: (int, int), q: (int, int)) -> bool {
    p.0 * q.1 <= q.0 * p.1
}

/// `p` is a whole multiple of `a`, both with positive denominators.
pub open spec fn is_multiple(p: (int, int), a: (int, int)) -> bool {
    exists|k: int| p.0 * a.1 == #[trigger] (k * a.0) * p.1
}

/// The error kinds of the fraction engine.
#[derive(Debug, Clone, Copy, PartialEq, Eq, Structural)]
pub enum FractionError {
    InvalidDenominator,
    DivisionByZero,
    MalformedNumericString,
    ZeroAccuracy,
}

/// A rational number `numer / denom` in lowest terms, `denom > 0`.
#[derive(Debug, Clone, Hash)]
pub struct Fraction {
    numer: Integer,
    denom: Integer,
}

impl View for Fraction {
    type V = (int, int);

    closed spec fn view(&self) -> (int, int) {
        (self.numer@, self.denom@)
    }
}

/// Relies on `Ratio::new`: divides both parts by their greatest common
/// divisor and moves the sign to the numerator; it panics on a zero denominator.
#[verifier::external_body]
fn ratio_new(n: &Integer, d: &Integer) -> (r: Fraction)
    requires
        d@ != 0,
    ensures
        r@ == reduce(n@, d@),
{
    let n = BigInt::from_signed_bytes_le(&n.bytes);
    let (n, d) = BigRational::new(n, BigInt::from_signed_bytes_le(&d.bytes)).into_raw();
    Fraction {
        numer: Integer { bytes: n.to_signed_bytes_le() },
        denom: Integer { bytes: d.to_signed_bytes_le() },
    }
}

/// The text `numer/denom`, or only `numer` when the denominator is one.
pub open spec fn ratio_text(p: (int, int)) -> Seq<char> {
    if p.1 == 1 {
        int_decimal(p.0)
    } else {
        int_decimal(p.0) + seq!['/'] + int_decimal(p.1)
    }
}

/// Relies on `Display for Ratio`: `numer/denom`, or only `numer` over one.
#[verifier::external_body]
fn ratio_to_string(a: &Fraction) -> (r: String)
    ensures
        r@ == ratio_text(a@),
{
    let x = BigRational::new_raw(BigInt::from_signed_bytes_le(&a.numer.bytes), BigInt::from_signed_bytes_le(&a.denom.bytes));
    x.to_string()
}

/// `numer` or `numer/denom`, each an integer literal.
pub open spec fn is_ratio_text(s: Seq<char>) -> bool {
    let p = last_index_of(s, '/');
    if p < 0 {
        is_integer_literal(s)
    } else {
        is_integer_literal(s.subrange(0, p)) && is_integer_literal(s.subrange(p + 1, s.len() as int))
    }
}

/// The numerator and denominator that a ratio text spells, the denominator
/// one when it is left out.
pub open spec fn ratio_text_parts(s: Seq<char>) -> (int, int) {
    let p = last_index_of(s, '/');
    if p < 0 {
        (integer_literal_value(s), 1)
    } else {
        (integer_literal_value(s.subrange(0, p)), integer_literal_value(s.subrange(p + 1, s.len() as int)))
    }
}

/// Relies on `FromStr for Ratio`: reads `numer/denom` or `numer`, fails on a
/// zero denominator, and otherwise reduces with `Ratio::new`.
#[verifier::external_body]
fn ratio_from_str(s: &str) -> (r: Option<Fraction>)
    ensures
        is_ratio_text(s@) && ratio_text_parts(s@).1 != 0 ==> r is Some && r->0@ == reduce(
            ratio_text_parts(s@).0,
            ratio_text_parts(s@).1,
        ),
        is_ratio_text(s@) && ratio_text_parts(s@).1 == 0 ==> r is None,
{
    match BigRational::from_str(s) {
        Ok(x) => {
            let (n, d) = x.into_raw();
            Some(Fraction {
                numer: Integer { bytes: n.to_signed_bytes_le() },
                denom: Integer { bytes: d.to_signed_bytes_le() },
            })
        },
        Err(_) => None,
    }
}

fn ratio_text_is_well_formed(s: &str) -> (r: bool)
    ensures
        r == is_ratio_text(s@),
{
    let n = s.unicode_len();
    let mut i: usize = n;
    while i > 0 && s.get_char(i - 1) != '/'
        invariant
            i <= n,
            n == s@.len(),
            forall|j: int| i <= j < n ==> s@[j] != '/',
        decreases i,
    {
        i = i - 1;
    }
    proof {
        lemma_last_index_of_is(s@, '/', i - 1);
    }
    if i == 0 {
        is_literal(s)
    } else {
        is_literal(s.substring_char(0, i - 1)) && is_literal(s.substring_char(i, n))
    }
}

/// Relies on `Add for Ratio`: the sum, in lowest terms.
#[verifier::external_body]
fn ratio_add(a: &Fraction, b: &Fraction) -> (r: Fraction)
    requires
        a.wf(),
        b.wf(),
    ensures
        denotes(r@, a@.0 * b@.1 + b@.0 * a@.1, a@.1 * b@.1),
{
    let x = BigRational::new_raw(BigInt::from_signed_bytes_le(&a.numer.bytes), BigInt::from_signed_bytes_le(&a.denom.bytes));
    let y = BigRational::new_raw(BigInt::from_signed_bytes_le(&b.numer.bytes), BigInt::from_signed_bytes_le(&b.denom.bytes));
    let (n, d) = (x + y).into_raw();
    Fraction {
        numer: Integer { bytes: n.to_signed_bytes_le() },
        denom: Integer { bytes: d.to_signed_bytes_le() },
    }
}

/// Relies on `Sub for Ratio`: the difference, in lowest terms.
#[verifier::external_body]
fn ratio_sub(a: &Fraction, b: &Fraction) -> (r: Fraction)
    requires
        a.wf(),
        b.wf(),
    ensures
        denotes(r@, a@.0 * b@.1 - b@.0 * a@.1, a@.1 * b@.1),
{
    let x = BigRational::new_raw(BigInt::from_signed_bytes_le(&a.numer.bytes), BigInt::from_signed_bytes_le(&a.denom.bytes));
    let y = BigRational::new_raw(BigInt::from_signed_bytes_le(&b.numer.bytes), BigInt::from_signed_bytes_le(&b.denom.bytes));
    let (n, d) = (x - y).into_raw();
    Fraction {
        numer: Integer { bytes: n.to_signed_bytes_le() },
        denom: Integer { bytes: d.to_signed_bytes_le() },
    }
}

/// Relies on `Mul for Ratio`: the product, in lowest terms.
#[verifier::external_body]
fn ratio_mul(a: &Fraction, b: &Fraction) -> (r: Fraction)
    requires
        a.wf(),
        b.wf(),
    ensures
        denotes(r@, a@.0 * b@.0, a@.1 * b@.1),
{
    let x = BigRational::new_raw(BigInt::from_signed_bytes_le(&a.numer.bytes), BigInt::from_signed_bytes_le(&a.denom.bytes));
    let y = BigRational::new_raw(BigInt::from_signed_bytes_le(&b.numer.bytes), BigInt::from_signed_bytes_le(&b.denom.bytes));
    let (n, d) = (x * y).into_raw();
    Fraction {
        numer: Integer { bytes: n.to_signed_bytes_le() },
        denom: Integer { bytes: d.to_signed_bytes_le() },
    }
}

/// Relies on `Div for Ratio`: the quotient, in lowest terms; it panics on a
/// zero divisor.
#[verifier::external_body]
fn ratio_div(a: &Fraction, b: &Fraction) -> (r: Fraction)
    requires
        a.wf(),
        b.wf(),
        b@.0 != 0,
    ensures
        denotes(r@, a@.0 * b@.1, a@.1 * b@.0),
{
    let x = BigRational::new_raw(BigInt::from_signed_bytes_le(&a.numer.bytes), BigInt::from_signed_bytes_le(&a.denom.bytes));
    let y = BigRational::new_raw(BigInt::from_signed_bytes_le(&b.numer.bytes), BigInt::from_signed_bytes_le(&b.denom.bytes));
    let (n, d) = (x / y).into_raw();
    Fraction {
        numer: Integer { bytes: n.to_signed_bytes_le() },
        denom: Integer { bytes: d.to_signed_bytes_le() },
    }
}

/// Relies on `Neg for Ratio`: the numerator negated, the denominator kept.
#[verifier::external_body]
fn ratio_neg(a: &Fraction) -> (r: Fraction)
    ensures
        r@ == (-a@.0, a@.1),
{
    let x = BigRational::new_raw(BigInt::from_signed_bytes_le(&a.numer.bytes), BigInt::from_signed_bytes_le(&a.denom.bytes));
    let (n, d) = (-x).into_raw();
    Fraction {
        numer: Integer { bytes: n.to_signed_bytes_le() },
        denom: Integer { bytes: d.to_signed_bytes_le() },
    }
}

/// Relies on `Ratio::recip`: numerator and denominator swapped, with the sign
/// moved to the numerator; it panics on zero.
#[verifier::external_body]
fn ratio_recip(a: &Fraction) -> (r: Fraction)
    requires
        a@.0 != 0,
    ensures
        r@ == (if a@.0 > 0 { (a@.1, a@.0) } else { (-a@.1, -a@.0) }),
{
    let x = BigRational::new_raw(BigInt::from_signed_bytes_le(&a.numer.bytes), BigInt::from_signed_bytes_le(&a.denom.bytes));
    let (n, d) = x.recip().into_raw();
    Fraction {
        numer: Integer { bytes: n.to_signed_bytes_le() },
        denom: Integer { bytes: d.to_signed_bytes_le() },
    }
}

/// Relies on `Ratio::floor`: the greatest integer not above the value, over 1.
#[verifier::external_body]
fn ratio_floor(a: &Fraction) -> (r: Fraction)
    requires
        a.wf(),
    ensures
        r@ == (floor_q(a@.0, a@.1), 1int),
{
    let x = BigRational::new_raw(BigInt::from_signed_bytes_le(&a.numer.bytes), BigInt::from_signed_bytes_le(&a.denom.bytes));
    let (n, d) = x.floor().into_raw();
    Fraction {
        numer: Integer { bytes: n.to_signed_bytes_le() },
        denom: Integer { bytes: d.to_signed_bytes_le() },
    }
}

/// Relies on `Ratio::ceil`: the least integer not below the value, over 1.
#[verifier::external_body]
fn ratio_ceil(a: &Fraction) -> (r: Fraction)
    requires
        a.wf(),
    ensures
        r@ == (ceil_q(a@.0, a@.1), 1int),
{
    let x = BigRational::new_raw(BigInt::from_signed_bytes_le(&a.numer.bytes), BigInt::from_signed_bytes_le(&a.denom.bytes));
    let (n, d) = x.ceil().into_raw();
    Fraction {
        numer: Integer { bytes: n.to_signed_bytes_le() },
        denom: Integer { bytes: d.to_signed_bytes_le() },
    }
}

/// Relies on `Ratio::round`: the nearest integer, halves away from zero, over 1.
#[verifier::external_body]
fn ratio_round(a: &Fraction) -> (r: Fraction)
    requires
        a.wf(),
    ensures
        r@ == (round_q(a@.0, a@.1), 1int),
{
    let x = BigRational::new_raw(BigInt::from_signed_bytes_le(&a.numer.bytes), BigInt::from_signed_bytes_le(&a.denom.bytes));
    let (n, d) = x.round().into_raw();
    Fraction {
        numer: Integer { bytes: n.to_signed_bytes_le() },
        denom: Integer { bytes: d.to_signed_bytes_le() },
    }
}


proof fn lemma_gcd_with_one(n: nat)
    ensures
        gcd(n, 1) == 1,
{
    assert(n % 1 == 0);
    assert(gcd(1, 0) == 1);
}

proof fn lemma_gcd_comm(a: nat, b: nat)
    ensures
        gcd(a, b) == gcd(b, a),
{
    if a < b {
        assert(a % b == a) by {
            vstd::arithmetic::div_mod::lemma_small_mod(a, b);
        }
    } else if b < a {
        assert(b % a == b) by {
            vstd::arithmetic::div_mod::lemma_small_mod(b, a);
        }
    }
}

/// Two fractions with positive denominators that stand for the same number
/// have the same floor.
proof fn lemma_floor_same_ratio(p1: int, q1: int, p2: int, q2: int)
    requires
        q1 > 0,
        q2 > 0,
        p1 * q2 == p2 * q1,
    ensures
        p1 / q1 == p2 / q2,
{
    let k = p1 / q1;
    let r1 = p1 % q1;
    vstd::arithmetic::div_mod::lemma_fundamental_div_mod(p1, q1);
    assert(0 <= r1 < q1);
    let x = p2 - k * q2;
    assert(x * q1 == r1 * q2) by (nonlinear_arith)
        requires
            p1 == q1 * k + r1,
            p1 * q2 == p2 * q1,
            x == p2 - k * q2,
    ;
    assert(0 <= r1 * q2 < q1 * q2) by (nonlinear_arith)
        requires
            0 <= r1 < q1,
            q2 > 0,
    ;
    assert(0 <= x) by (nonlinear_arith)
        requires
            x * q1 == r1 * q2,
            0 <= r1 * q2,
            q1 > 0,
    ;
    assert(x < q2) by (nonlinear_arith)
        requires
            x * q1 == r1 * q2,
            r1 * q2 < q1 * q2,
            q1 > 0,
    ;
    vstd::arithmetic::div_mod::lemma_fundamental_div_mod_converse(p2, q2, k, x);
}

/// Normalising a pair whose denominator may be negative keeps its ratio.
proof fn lemma_floor_q_same_ratio(p1: int, q1: int, p2: int, q2: int)
    requires
        q1 > 0,
        q2 != 0,
        p1 * q2 == p2 * q1,
    ensures
        p1 / q1 == floor_q(p2, q2),
        ceil_q(p1, q1) == ceil_q(p2, q2),
        round_q(p1, q1) == round_q(p2, q2),
{
    let (n, d) = if q2 > 0 { (p2, q2) } else { (-p2, -q2) };
    assert(p1 * d == n * q1) by (nonlinear_arith)
        requires
            p1 * q2 == p2 * q1,
            (q2 > 0 && n == p2 && d == q2) || (q2 < 0 && n == -p2 && d == -q2),
    ;
    lemma_floor_same_ratio(p1, q1, n, d);
    assert((-p1) * d == (-n) * q1) by (nonlinear_arith)
        requires
            p1 * d == n * q1,
    ;
    lemma_floor_same_ratio(-p1, q1, -n, d);
    assert(p1 >= 0 <==> n >= 0) by (nonlinear_arith)
        requires
            p1 * d == n * q1,
            q1 > 0,
            d > 0,
    ;
    assert((2 * p1 + q1) * (2 * d) == (2 * n + d) * (2 * q1)) by (nonlinear_arith)
        requires
            p1 * d == n * q1,
    ;
    assert((-2 * p1 + q1) * (2 * d) == (-2 * n + d) * (2 * q1)) by (nonlinear_arith)
        requires
            p1 * d == n * q1,
    ;
    lemma_floor_same_ratio(2 * p1 + q1, 2 * q1, 2 * n + d, 2 * d);
    lemma_floor_same_ratio(-2 * p1 + q1, 2 * q1, -2 * n + d, 2 * d);
}

impl PartialEq for Fraction {
    /// Equal values: both are in lowest terms, so the pairs match.
    fn eq(&self, other: &Fraction) -> bool {
        let same_numer = match self.numer.compare(&other.numer) {
            std::cmp::Ordering::Equal => true,
            _ => false,
        };
        let same_denom = match self.denom.compare(&other.denom) {
            std::cmp::Ordering::Equal => true,
            _ => false,
        };
        same_numer && same_denom
    }
}

impl vstd::std_specs::cmp::PartialEqSpecImpl for Fraction {
    open spec fn obeys_eq_spec() -> bool {
        true
    }

    open spec fn eq_spec(&self, other: &Fraction) -> bool {
        self@ == other@
    }
}

impl Eq for Fraction {
}

impl FromStr for Fraction {
    type Err = FractionError;

    /// The same as `Fraction::from_ratio_str`.
    fn from_str(s: &str) -> Result<Fraction, FractionError> {
        Fraction::from_ratio_str(s)
    }
}

impl Default for Fraction {
    /// Zero, as `0 / 1`.
    fn default() -> (r: Fraction)
        ensures
            r@ == (0int, 1int),
            r.wf(),
    {
        Fraction::from_integer(Integer::from_i64(0))
    }
}

/// For a positive accuracy `a`, rounding `x` down to a multiple of `a` gives
/// at most `x`, rounding it up gives at least `x`, and both are multiples of `a`.
pub proof fn lemma_rounding_bounds(x: (int, int), a: (int, int), lo: (int, int), hi: (int, int))
    requires
        is_reduced(x),
        is_reduced(a),
        a.0 > 0,
        denotes(lo, floor_q(x.0 * a.1, x.1 * a.0) * a.0, a.1),
        denotes(hi, ceil_q(x.0 * a.1, x.1 * a.0) * a.0, a.1),
    ensures
        le(lo, x),
        le(x, hi),
        is_multiple(lo, a),
        is_multiple(hi, a),
{
    let p = x.0 * a.1;
    let q = x.1 * a.0;
    assert(q > 0) by (nonlinear_arith)
        requires
            q == x.1 * a.0,
            x.1 > 0,
            a.0 > 0,
    ;
    let k = p / q;
    let c = -((-p) / q);
    vstd::arithmetic::div_mod::lemma_fundamental_div_mod(p, q);
    vstd::arithmetic::div_mod::lemma_fundamental_div_mod(-p, q);
    assert(k * q <= p);
    let m = (-p) / q;
    assert(m * q <= -p);
    assert(c * q >= p) by (nonlinear_arith)
        requires
            c == -m,
            m * q <= -p,
    ;
    assert(floor_q(p, q) == k);
    assert(ceil_q(p, q) == c);
    assert(lo.0 * a.1 == k * a.0 * lo.1) by (nonlinear_arith)
        requires
            lo.0 * a.1 == (k * a.0) * lo.1,
    ;
    assert(hi.0 * a.1 == c * a.0 * hi.1) by (nonlinear_arith)
        requires
            hi.0 * a.1 == (c * a.0) * hi.1,
    ;
    assert((lo.0 * x.1) * a.1 <= (x.0 * lo.1) * a.1) by (nonlinear_arith)
        requires
            lo.0 * a.1 == k * a.0 * lo.1,
            k * q <= p,
            p == x.0 * a.1,
            q == x.1 * a.0,
            lo.1 > 0,
            x.1 > 0,
    ;
    assert(lo.0 * x.1 <= x.0 * lo.1) by (nonlinear_arith)
        requires
            (lo.0 * x.1) * a.1 <= (x.0 * lo.1) * a.1,
            a.1 > 0,
    ;
    assert((x.0 * hi.1) * a.1 <= (hi.0 * x.1) * a.1) by (nonlinear_arith)
        requires
            hi.0 * a.1 == c * a.0 * hi.1,
            c * q >= p,
            p == x.0 * a.1,
            q == x.1 * a.0,
            hi.1 > 0,
            x.1 > 0,
    ;
    assert(x.0 * hi.1 <= hi.0 * x.1) by (nonlinear_arith)
        requires
            (x.0 * hi.1) * a.1 <= (hi.0 * x.1) * a.1,
            a.1 > 0,
    ;
}

impl Fraction {
    /// In lowest terms with a positive denominator.
    pub open spec fn wf(&self) -> bool {
        is_reduced(self@)
    }

    pub fn numer(&self) -> (r: &Integer)
        ensures
            r@ == self@.0,
    {
        &self.numer
    }

    pub fn denom(&self) -> (r: &Integer)
        ensures
            r@ == self@.1,
    {
        &self.denom
    }

    /// The value as text, `numer/denom`, or only `numer` when it is whole.
    pub fn to_ratio_string(&self) -> (r: String)
        ensures
            r@ == ratio_text(self@),
    {
        ratio_to_string(self)
    }

    /// Reads `numer/denom` or `numer`, each an integer literal, in lowest
    /// terms; fails on other text, then on a zero denominator.
    pub fn from_ratio_str(s: &str) -> (r: Result<Fraction, FractionError>)
        ensures
            !is_ratio_text(s@) ==> r == Err::<Fraction, FractionError>(FractionError::MalformedNumericString),
            is_ratio_text(s@) && ratio_text_parts(s@).1 == 0 ==> r == Err::<Fraction, FractionError>(
                FractionError::InvalidDenominator,
            ),
            is_ratio_text(s@) && ratio_text_parts(s@).1 != 0 ==> r is Ok && r->Ok_0@ == reduce(
                ratio_text_parts(s@).0,
                ratio_text_parts(s@).1,
            ) && r->Ok_0.wf(),
    {
        if !ratio_text_is_well_formed(s) {
            return Err(FractionError::MalformedNumericString);
        }
        match ratio_from_str(s) {
            Some(f) => {
                proof {
                    lemma_reduce_is_reduced(ratio_text_parts(s@).0, ratio_text_parts(s@).1);
                }
                Ok(f)
            },
            None => Err(FractionError::InvalidDenominator),
        }
    }

    /// A copy of the value.
    pub fn duplicate(&self) -> (r: Fraction)
        ensures
            r@ == self@,
    {
        Fraction { numer: self.numer.duplicate(), denom: self.denom.duplicate() }
    }

    /// Builds `numer / denom` in lowest terms; fails on a zero denominator.
    pub fn from_raw(numer: Integer, denom: Integer) -> (r: Result<Fraction, FractionError>)
        ensures
            denom@ == 0 ==> r == Err::<Fraction, FractionError>(FractionError::InvalidDenominator),
            denom@ != 0 ==> r is Ok && r->Ok_0@ == reduce(numer@, denom@) && r->Ok_0.wf(),
    {
        if denom.is_zero() {
            return Err(FractionError::InvalidDenominator);
        }
        proof {
            lemma_reduce_is_reduced(numer@, denom@);
        }
        Ok(ratio_new(&numer, &denom))
    }

    /// A non-negative fraction from the little-endian bytes of its numerator
    /// and denominator, a zero denominator read as one: a way to draw sample
    /// values from random bytes, whose length bounds their size.
    pub fn from_unsigned_le_bytes(numer: &[u8], denom: &[u8]) -> (r: Fraction)
        ensures
            r@ == reduce(
                unsigned_le(numer@) as int,
                if unsigned_le(denom@) == 0 { 1 } else { unsigned_le(denom@) as int },
            ),
            r.wf(),
    {
        let n = Integer::from_unsigned_le_bytes(numer);
        let mut d = Integer::from_unsigned_le_bytes(denom);
        if d.is_zero() {
            d = Integer::from_i64(1);
        }
        proof {
            lemma_reduce_is_reduced(n@, d@);
        }
        ratio_new(&n, &d)
    }

    /// The integer `n` as the fraction `n / 1`.
    pub fn from_integer(n: Integer) -> (r: Fraction)
        ensures
            r@ == (n@, 1int),
            r.wf(),
    {
        proof {
            lemma_gcd_with_one(abs(n@));
        }
        Fraction { numer: n, denom: Integer::from_i64(1) }
    }

    pub fn is_zero(&self) -> (r: bool)
        ensures
            r == (self@.0 == 0),
    {
        self.numer.is_zero()
    }

    pub fn is_negative(&self) -> (r: bool)
        ensures
            r == (self@.0 < 0),
    {
        self.numer.is_negative()
    }

    pub fn is_positive(&self) -> (r: bool)
        ensures
            r == (self@.0 > 0),
    {
        !self.numer.is_negative() && !self.numer.is_zero()
    }

    /// Orders two fractions by cross-multiplication.
    pub fn compare(&self, other: &Fraction) -> (r: std::cmp::Ordering)
        ensures
            (r == std::cmp::Ordering::Less) == (self@.0 * other@.1 < other@.0 * self@.1),
            (r == std::cmp::Ordering::Equal) == (self@.0 * other@.1 == other@.0 * self@.1),
            (r == std::cmp::Ordering::Greater) == (self@.0 * other@.1 > other@.0 * self@.1),
    {
        let left = self.numer.mul(&other.denom);
        let right = other.numer.mul(&self.denom);
        left.compare(&right)
    }

    /// `1`, `0` or `-1` after the sign.
    pub fn signum(&self) -> (r: Fraction)
        requires
            self.wf(),
        ensures
            r@ == (if self@.0 > 0 { 1int } else if self@.0 == 0 { 0int } else { -1int }, 1int),
            r.wf(),
    {
        if self.is_positive() {
            Fraction::from_integer(Integer::from_i64(1))
        } else if self.is_zero() {
            Fraction::from_integer(Integer::from_i64(0))
        } else {
            Fraction::from_integer(Integer::from_i64(-1))
        }
    }

    pub fn neg(&self) -> (r: Fraction)
        requires
            self.wf(),
        ensures
            r@ == (-self@.0, self@.1),
            r.wf(),
    {
        let r = ratio_neg(self);
        assert(abs(-self@.0) == abs(self@.0));
        r
    }

    pub fn abs(&self) -> (r: Fraction)
        requires
            self.wf(),
        ensures
            r@ == (abs(self@.0) as int, self@.1),
            r.wf(),
    {
        if self.is_negative() {
            self.neg()
        } else {
            self.duplicate()
        }
    }

    /// The multiplicative inverse; fails on zero.
    pub fn inv(&self) -> (r: Result<Fraction, FractionError>)
        requires
            self.wf(),
        ensures
            self@.0 == 0 ==> r == Err::<Fraction, FractionError>(FractionError::DivisionByZero),
            self@.0 != 0 ==> r is Ok && denotes(r->Ok_0@, self@.1, self@.0),
    {
        if self.is_zero() {
            return Err(FractionError::DivisionByZero);
        }
        let r = ratio_recip(self);
        proof {
            lemma_gcd_comm(abs(self@.0), self@.1 as nat);
            assert(r@.0 * self@.0 == self@.1 * r@.1) by (nonlinear_arith)
                requires
                    r@ == (if self@.0 > 0 { (self@.1, self@.0) } else { (-self@.1, -self@.0) }),
            ;
        }
        Ok(r)
    }

    pub fn checked_add(&self, other: &Fraction) -> (r: Result<Fraction, FractionError>)
        requires
            self.wf(),
            other.wf(),
        ensures
            r is Ok,
            denotes(r->Ok_0@, self@.0 * other@.1 + other@.0 * self@.1, self@.1 * other@.1),
    {
        Ok(ratio_add(self, other))
    }

    pub fn checked_sub(&self, other: &Fraction) -> (r: Result<Fraction, FractionError>)
        requires
            self.wf(),
            other.wf(),
        ensures
            r is Ok,
            denotes(r->Ok_0@, self@.0 * other@.1 - other@.0 * self@.1, self@.1 * other@.1),
    {
        Ok(ratio_sub(self, other))
    }

    pub fn checked_mul(&self, other: &Fraction) -> (r: Result<Fraction, FractionError>)
        requires
            self.wf(),
            other.wf(),
        ensures
            r is Ok,
            denotes(r->Ok_0@, self@.0 * other@.0, self@.1 * other@.1),
    {
        Ok(ratio_mul(self, other))
    }

    /// The quotient; fails when the divisor is zero.
    pub fn checked_div(&self, other: &Fraction) -> (r: Result<Fraction, FractionError>)
        requires
            self.wf(),
            other.wf(),
        ensures
            other@.0 == 0 ==> r == Err::<Fraction, FractionError>(FractionError::DivisionByZero),
            other@.0 != 0 ==> r is Ok && denotes(r->Ok_0@, self@.0 * other@.1, self@.1 * other@.0),
    {
        if other.is_zero() {
            return Err(FractionError::DivisionByZero);
        }
        Ok(ratio_div(self, other))
    }

    pub fn add_assign(&mut self, rhs: Fraction)
        requires
            old(self).wf(),
            rhs.wf(),
        ensures
            denotes(final(self)@, old(self)@.0 * rhs@.1 + rhs@.0 * old(self)@.1, old(self)@.1 * rhs@.1),
    {
        *self = ratio_add(self, &rhs);
    }

    pub fn sub_assign(&mut self, rhs: Fraction)
        requires
            old(self).wf(),
            rhs.wf(),
        ensures
            denotes(final(self)@, old(self)@.0 * rhs@.1 - rhs@.0 * old(self)@.1, old(self)@.1 * rhs@.1),
    {
        *self = ratio_sub(self, &rhs);
    }

    /// `self - other` when `self` is the larger, else zero.
    pub fn abs_sub(&self, other: &Fraction) -> (r: Fraction)
        requires
            self.wf(),
            other.wf(),
        ensures
            le(self@, other@) ==> r@ == (0int, 1int),
            !le(self@, other@) ==> denotes(r@, self@.0 * other@.1 - other@.0 * self@.1, self@.1 * other@.1),
            r.wf(),
    {
        match self.compare(other) {
            std::cmp::Ordering::Greater => ratio_sub(self, other),
            _ => Fraction::from_integer(Integer::from_i64(0)),
        }
    }

    /// The greatest multiple of `accuracy` not above `self`; fails on a zero accuracy.
    pub fn checked_floor_with_accuracy(self, accuracy: &Fraction) -> (r: Result<Fraction, FractionError>)
        requires
            self.wf(),
            accuracy.wf(),
        ensures
            accuracy@.0 == 0 ==> r == Err::<Fraction, FractionError>(FractionError::ZeroAccuracy),
            accuracy@.0 != 0 ==> r is Ok && denotes(
                r->Ok_0@,
                floor_q(self@.0 * accuracy@.1, self@.1 * accuracy@.0) * accuracy@.0,
                accuracy@.1,
            ),
    {
        if accuracy.is_zero() {
            return Err(FractionError::ZeroAccuracy);
        }
        let q = ratio_div(&self, accuracy);
        let f = ratio_floor(&q);
        proof {
            lemma_gcd_with_one(abs(f@.0));
            assert(self@.1 * accuracy@.0 != 0) by (nonlinear_arith)
                requires
                    self@.1 > 0,
                    accuracy@.0 != 0,
            ;
            lemma_floor_q_same_ratio(q@.0, q@.1, self@.0 * accuracy@.1, self@.1 * accuracy@.0);
        }
        let r = ratio_mul(&f, accuracy);
        assert(1 * accuracy@.1 == accuracy@.1);
        Ok(r)
    }

    /// The least multiple of `accuracy` not below `self`; fails on a zero accuracy.
    pub fn checked_ceil_with_accuracy(self, accuracy: &Fraction) -> (r: Result<Fraction, FractionError>)
        requires
            self.wf(),
            accuracy.wf(),
        ensures
            accuracy@.0 == 0 ==> r == Err::<Fraction, FractionError>(FractionError::ZeroAccuracy),
            accuracy@.0 != 0 ==> r is Ok && denotes(
                r->Ok_0@,
                ceil_q(self@.0 * accuracy@.1, self@.1 * accuracy@.0) * accuracy@.0,
                accuracy@.1,
            ),
    {
        if accuracy.is_zero() {
            return Err(FractionError::ZeroAccuracy);
        }
        let q = ratio_div(&self, accuracy);
        let f = ratio_ceil(&q);
        proof {
            lemma_gcd_with_one(abs(f@.0));
            assert(self@.1 * accuracy@.0 != 0) by (nonlinear_arith)
                requires
                    self@.1 > 0,
                    accuracy@.0 != 0,
            ;
            lemma_floor_q_same_ratio(q@.0, q@.1, self@.0 * accuracy@.1, self@.1 * accuracy@.0);
        }
        let r = ratio_mul(&f, accuracy);
        assert(1 * accuracy@.1 == accuracy@.1);
        Ok(r)
    }

    /// The multiple of `accuracy` nearest to `self`, halves away from zero;
    /// fails on a zero accuracy.
    pub fn checked_round_with_accuracy(self, accuracy: &Fraction) -> (r: Result<Fraction, FractionError>)
        requires
            self.wf(),
            accuracy.wf(),
        ensures
            accuracy@.0 == 0 ==> r == Err::<Fraction, FractionError>(FractionError::ZeroAccuracy),
            accuracy@.0 != 0 ==> r is Ok && denotes(
                r->Ok_0@,
                round_q(self@.0 * accuracy@.1, self@.1 * accuracy@.0) * accuracy@.0,
                accuracy@.1,
            ),
    {
        if accuracy.is_zero() {
            return Err(FractionError::ZeroAccuracy);
        }
        let q = ratio_div(&self, accuracy);
        let f = ratio_round(&q);
        proof {
            lemma_gcd_with_one(abs(f@.0));
            assert(self@.1 * accuracy@.0 != 0) by (nonlinear_arith)
                requires
                    self@.1 > 0,
                    accuracy@.0 != 0,
            ;
            lemma_floor_q_same_ratio(q@.0, q@.1, self@.0 * accuracy@.1, self@.1 * accuracy@.0);
        }
        let r = ratio_mul(&f, accuracy);
        assert(1 * accuracy@.1 == accuracy@.1);
        Ok(r)
    }
}

} // verus!
