//! Arbitrary-precision signed integers, held as two's-complement bytes and
//! computed on by `num_bigint`.

use vstd::prelude::*;
use vstd::arithmetic::power::pow;
use num_bigint::{BigInt, Sign};
use std::str::FromStr;

verus! {

/// Unsigned value of little-endian base-256 digits.
pub open spec fn unsigned_le(b: Seq<u8>) -> nat
    decreases b.len(),
{
    if b.len() == 0 {
        0
    } else {
        b[0] as nat + 256 * unsigned_le(b.drop_first())
    }
}

/// Signed value of little-endian two's-complement bytes (empty means zero).
pub open spec fn twos_complement_le(b: Seq<u8>) -> int {
    if b.len() > 0 && b.last() >= 128 {
        unsigned_le(b) - pow(256, b.len())
    } else {
        unsigned_le(b) as int
    }
}

pub open spec fn digit_char(d: nat) -> char {
    seq!['0', '1', '2', '3', '4', '5', '6', '7', '8', '9'][d as int]
}

pub open spec fn is_digit(c: char) -> bool {
    '0' <= c && c <= '9'
}

pub open spec fn digit_value(c: char) -> nat {
    (c as int - '0' as int) as nat
}

/// Base-10 digits of a natural number, most significant first, no leading zeros.
pub open spec fn nat_digits(n: nat) -> Seq<char>
    decreases n,
{
    if n < 10 {
        seq![digit_char(n)]
    } else {
        nat_digits(n / 10).push(digit_char(n % 10))
    }
}

/// Base-10 text of an integer: its digits, after a `-` when negative.
pub open spec fn int_decimal(i: int) -> Seq<char> {
    if i < 0 {
        seq!['-'] + nat_digits((-i) as nat)
    } else {
        nat_digits(i as nat)
    }
}

/// Value of a sequence of decimal digits.
pub open spec fn digits_value(s: Seq<char>) -> nat
    decreases s.len(),
{
    if s.len() == 0 {
        0
    } else {
        digits_value(s.drop_last()) * 10 + digit_value(s.last())
    }
}

pub open spec fn all_digits(s: Seq<char>) -> bool {
    s.len() > 0 && forall|i: int| 0 <= i < s.len() ==> is_digit(#[trigger] s[i])
}

/// An integer literal: one or more decimal digits, after an optional `-`.
pub open spec fn is_integer_literal(s: Seq<char>) -> bool {
    all_digits(s) || (s.len() > 0 && s[0] == '-' && all_digits(s.drop_first()))
}

pub open spec fn integer_literal_value(s: Seq<char>) -> int {
    if s.len() > 0 && s[0] == '-' {
        -digits_value(s.drop_first())
    } else {
        digits_value(s) as int
    }
}

pub proof fn lemma_digit_char_value(k: nat)
    requires
        k < 10,
    ensures
        is_digit(digit_char(k)),
        digit_value(digit_char(k)) == k,
{
    let s = seq!['0', '1', '2', '3', '4', '5', '6', '7', '8', '9'];
    assert(s[0] == '0' && s[1] == '1' && s[2] == '2' && s[3] == '3' && s[4] == '4');
    assert(s[5] == '5' && s[6] == '6' && s[7] == '7' && s[8] == '8' && s[9] == '9');
}

pub proof fn lemma_nat_digits(n: nat)
    ensures
        all_digits(nat_digits(n)),
        digits_value(nat_digits(n)) == n,
        nat_digits(n)[0] != '-',
    decreases n,
{
    if n < 10 {
        lemma_digit_char_value(n);
        assert(nat_digits(n).drop_last() =~= Seq::<char>::empty());
        assert(digits_value(Seq::<char>::empty()) == 0);
        assert(digits_value(nat_digits(n)) == n);
    } else {
        lemma_nat_digits(n / 10);
        lemma_digit_char_value(n % 10);
        let s = nat_digits(n);
        assert(s.drop_last() =~= nat_digits(n / 10));
        assert(s.last() == digit_char(n % 10));
        assert(digits_value(s) == (n / 10) * 10 + n % 10);
        assert forall|i: int| 0 <= i < s.len() implies is_digit(#[trigger] s[i]) by {
            if i < s.len() - 1 {
                assert(s[i] == nat_digits(n / 10)[i]);
            }
        }
    }
}

/// The text of every integer is an integer literal that reads back as it.
pub proof fn lemma_decimal_round_trip(i: int)
    ensures
        is_integer_literal(int_decimal(i)),
        integer_literal_value(int_decimal(i)) == i,
{
    if i < 0 {
        let d = nat_digits((-i) as nat);
        lemma_nat_digits((-i) as nat);
        assert((seq!['-'] + d).drop_first() =~= d);
    } else {
        lemma_nat_digits(i as nat);
    }
}

/// Index of the last `c` in `s`, or -1.
pub open spec fn last_index_of(s: Seq<char>, c: char) -> int
    decreases s.len(),
{
    if s.len() == 0 {
        -1
    } else if s.last() == c {
        s.len() - 1
    } else {
        last_index_of(s.drop_last(), c)
    }
}

pub proof fn lemma_last_index_of_is(s: Seq<char>, c: char, p: int)
    requires
        -1 <= p < s.len(),
        p >= 0 ==> s[p] == c,
        forall|j: int| p < j < s.len() ==> s[j] != c,
    ensures
        last_index_of(s, c) == p,
    decreases s.len(),
{
    if s.len() > 0 && s.last() != c {
        assert(p != s.len() - 1);
        lemma_last_index_of_is(s.drop_last(), c, p);
    }
}

/// A signed integer of unbounded magnitude.
#[derive(Debug, Clone, Hash)]
pub struct Integer {
    pub(crate) bytes: Vec<u8>,
}

impl View for Integer {
    type V = int;

    closed spec fn view(&self) -> int {
        twos_complement_le(self.bytes@)
    }
}

/// Relies on `BigInt::from(i64)` and `BigInt::to_signed_bytes_le`: the value is kept.
#[verifier::external_body]
fn big_from_i64(v: i64) -> (r: Integer)
    ensures
        r@ == v as int,
{
    Integer { bytes: BigInt::from(v).to_signed_bytes_le() }
}

/// Relies on `BigInt::from_bytes_le` with a plus sign: the magnitude read
/// from little-endian bytes.
#[verifier::external_body]
fn big_from_unsigned_le(bytes: &[u8]) -> (r: Integer)
    ensures
        r@ == unsigned_le(bytes@) as int,
{
    Integer { bytes: BigInt::from_bytes_le(Sign::Plus, bytes).to_signed_bytes_le() }
}

/// Relies on `Ord for BigInt`: integers ordered by value.
#[verifier::external_body]
fn big_cmp(a: &Integer, b: &Integer) -> (r: std::cmp::Ordering)
    ensures
        (r == std::cmp::Ordering::Less) == (a@ < b@),
        (r == std::cmp::Ordering::Equal) == (a@ == b@),
        (r == std::cmp::Ordering::Greater) == (a@ > b@),
{
    BigInt::from_signed_bytes_le(&a.bytes).cmp(&BigInt::from_signed_bytes_le(&b.bytes))
}

/// Relies on `Mul for BigInt`: the exact product.
#[verifier::external_body]
fn big_mul(a: &Integer, b: &Integer) -> (r: Integer)
    ensures
        r@ == a@ * b@,
{
    let p = BigInt::from_signed_bytes_le(&a.bytes) * BigInt::from_signed_bytes_le(&b.bytes);
    Integer { bytes: p.to_signed_bytes_le() }
}

/// Relies on `Div for BigInt`, which rounds toward zero; on non-negative
/// operands that is the floor.
#[verifier::external_body]
fn big_div(a: &Integer, b: &Integer) -> (r: Integer)
    requires
        a@ >= 0,
        b@ > 0,
    ensures
        r@ == a@ / b@,
{
    let q = BigInt::from_signed_bytes_le(&a.bytes) / BigInt::from_signed_bytes_le(&b.bytes);
    Integer { bytes: q.to_signed_bytes_le() }
}

/// Relies on `Rem for BigInt`, whose sign follows the dividend; on
/// non-negative operands that is the modulus.
#[verifier::external_body]
fn big_rem(a: &Integer, b: &Integer) -> (r: Integer)
    requires
        a@ >= 0,
        b@ > 0,
    ensures
        r@ == a@ % b@,
{
    let m = BigInt::from_signed_bytes_le(&a.bytes) % BigInt::from_signed_bytes_le(&b.bytes);
    Integer { bytes: m.to_signed_bytes_le() }
}

/// Relies on `Display for BigInt`: base-10 digits after a `-` when negative.
#[verifier::external_body]
fn big_to_decimal(a: &Integer) -> (r: String)
    ensures
        r@ == int_decimal(a@),
{
    BigInt::from_signed_bytes_le(&a.bytes).to_string()
}

/// Relies on `FromStr for BigInt`, which reads an integer literal in base 10.
#[verifier::external_body]
fn big_parse_decimal(s: &str) -> (r: Option<Integer>)
    ensures
        is_integer_literal(s@) ==> r is Some && r->0@ == integer_literal_value(s@),
{
    BigInt::from_str(s).ok().map(|v| Integer { bytes: v.to_signed_bytes_le() })
}

impl Integer {
    /// A copy of the value.
    pub fn duplicate(&self) -> (r: Integer)
        ensures
            r@ == self@,
    {
        let mut bytes: Vec<u8> = Vec::new();
        let mut i: usize = 0;
        while i < self.bytes.len()
            invariant
                i <= self.bytes@.len(),
                bytes@ == self.bytes@.subrange(0, i as int),
            decreases self.bytes@.len() - i,
        {
            bytes.push(self.bytes[i]);
            i = i + 1;
        }
        assert(bytes@ == self.bytes@);
        Integer { bytes }
    }

    pub fn from_i64(v: i64) -> (r: Integer)
        ensures
            r@ == v as int,
    {
        big_from_i64(v)
    }

    /// The non-negative integer whose little-endian base-256 digits are `bytes`.
    pub fn from_unsigned_le_bytes(bytes: &[u8]) -> (r: Integer)
        ensures
            r@ == unsigned_le(bytes@) as int,
    {
        big_from_unsigned_le(bytes)
    }

    pub fn compare(&self, other: &Integer) -> (r: std::cmp::Ordering)
        ensures
            (r == std::cmp::Ordering::Less) == (self@ < other@),
            (r == std::cmp::Ordering::Equal) == (self@ == other@),
            (r == std::cmp::Ordering::Greater) == (self@ > other@),
    {
        big_cmp(self, other)
    }

    pub fn is_zero(&self) -> (r: bool)
        ensures
            r == (self@ == 0),
    {
        let zero = big_from_i64(0);
        match big_cmp(self, &zero) {
            std::cmp::Ordering::Equal => true,
            _ => false,
        }
    }

    pub fn is_negative(&self) -> (r: bool)
        ensures
            r == (self@ < 0),
    {
        let zero = big_from_i64(0);
        match big_cmp(self, &zero) {
            std::cmp::Ordering::Less => true,
            _ => false,
        }
    }

    pub fn mul(&self, other: &Integer) -> (r: Integer)
        ensures
            r@ == self@ * other@,
    {
        big_mul(self, other)
    }

    /// Quotient and remainder of a non-negative integer by a positive one.
    pub fn div_rem(&self, other: &Integer) -> (r: (Integer, Integer))
        requires
            self@ >= 0,
            other@ > 0,
        ensures
            r.0@ == self@ / other@,
            r.1@ == self@ % other@,
    {
        (big_div(self, other), big_rem(self, other))
    }

    /// Base-10 text: the digits, after a `-` when negative.
    pub fn to_decimal_string(&self) -> (r: String)
        ensures
            r@ == int_decimal(self@),
    {
        big_to_decimal(self)
    }

    /// Reads an integer literal: one or more decimal digits after an optional `-`.
    pub fn parse_decimal(s: &str) -> (r: Option<Integer>)
        ensures
            r is Some <==> is_integer_literal(s@),
            r matches Some(v) ==> v@ == integer_literal_value(s@),
    {
        if !is_literal(s) {
            return None;
        }
        big_parse_decimal(s)
    }
}

pub(crate) fn is_literal(s: &str) -> (r: bool)
    ensures
        r == is_integer_literal(s@),
{
    let n = s.unicode_len();
    if n == 0 {
        return false;
    }
    let start: usize = if s.get_char(0) == '-' { 1 } else { 0 };
    if start == n {
        return false;
    }
    let mut i: usize = start;
    while i < n
        invariant
            start <= i <= n,
            n == s@.len(),
            start == (if s@[0] == '-' { 1usize } else { 0usize }),
            forall|j: int| start <= j < i ==> is_digit(#[trigger] s@[j]),
        decreases n - i,
    {
        let c = s.get_char(i);
        if !('0' <= c && c <= '9') {
            assert(!is_digit(s@[i as int]));
            assert(!is_digit(s@[0]) || s@[0] != '-');
            if start == 1 {
                assert(s@.drop_first()[i - 1] == s@[i as int]);
            }
            return false;
        }
        i = i + 1;
    }
    true
}

} // verus!
