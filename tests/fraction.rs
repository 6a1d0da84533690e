use ksox_fraction::codec::FractionRecord;
use ksox_fraction::fraction::{Fraction, FractionError};
use ksox_fraction::integer::Integer;
use std::cmp::Ordering;

fn integer(v: i64) -> Integer {
    Integer::from_i64(v)
}

fn frac(n: i64, d: i64) -> Fraction {
    Fraction::from_raw(integer(n), integer(d)).unwrap()
}

fn parts(f: &Fraction) -> (String, String) {
    (f.numer().to_decimal_string(), f.denom().to_decimal_string())
}

fn pair(n: &str, d: &str) -> (String, String) {
    (n.to_string(), d.to_string())
}

/// A small deterministic generator of signed values.
struct Lcg(u64);

impl Lcg {
    fn next(&mut self) -> i64 {
        self.0 = self.0.wrapping_mul(6364136223846793005).wrapping_add(1442695040888963407);
        ((self.0 >> 33) as i64) - (1 << 30)
    }

    fn fraction(&mut self) -> Fraction {
        let n = self.next();
        let mut d = self.next();
        if d == 0 {
            d = 1;
        }
        frac(n, d)
    }
}

#[test]
fn from_raw_reduces_and_moves_sign() {
    assert_eq!(parts(&frac(6, -4)), pair("-3", "2"));
    assert_eq!(parts(&frac(0, -5)), pair("0", "1"));
    assert_eq!(parts(&frac(-10, -15)), pair("2", "3"));
}

#[test]
fn from_raw_zero_denominator() {
    assert_eq!(Fraction::from_raw(integer(3), integer(0)), Err(FractionError::InvalidDenominator));
}

#[test]
fn floor_seven_halves() {
    let r = frac(7, 2).checked_floor_with_accuracy(&Fraction::from_integer(integer(1))).unwrap();
    assert_eq!(r, Fraction::from_integer(integer(3)));
}

#[test]
fn floor_negative_seven_halves() {
    let r = frac(-7, 2).checked_floor_with_accuracy(&Fraction::from_integer(integer(1))).unwrap();
    assert_eq!(r, Fraction::from_integer(integer(-4)));
}

#[test]
fn ceil_and_round_with_accuracy() {
    let one = Fraction::from_integer(integer(1));
    assert_eq!(frac(7, 2).checked_ceil_with_accuracy(&one).unwrap(), frac(4, 1));
    assert_eq!(frac(-7, 2).checked_ceil_with_accuracy(&one).unwrap(), frac(-3, 1));
    assert_eq!(frac(5, 2).checked_round_with_accuracy(&one).unwrap(), frac(3, 1));
    assert_eq!(frac(-5, 2).checked_round_with_accuracy(&one).unwrap(), frac(-3, 1));
    assert_eq!(frac(1, 2).checked_round_with_accuracy(&one).unwrap(), frac(1, 1));
    assert_eq!(frac(-1, 2).checked_round_with_accuracy(&one).unwrap(), frac(-1, 1));
    assert_eq!(frac(7, 5).checked_round_with_accuracy(&one).unwrap(), frac(1, 1));
}

#[test]
fn rounding_to_a_tick_size() {
    let tick = frac(1, 4);
    assert_eq!(frac(13, 10).checked_floor_with_accuracy(&tick).unwrap(), frac(5, 4));
    assert_eq!(frac(13, 10).checked_ceil_with_accuracy(&tick).unwrap(), frac(3, 2));
    assert_eq!(frac(13, 10).checked_round_with_accuracy(&tick).unwrap(), frac(5, 4));
    assert_eq!(frac(-13, 10).checked_floor_with_accuracy(&tick).unwrap(), frac(-3, 2));
}

#[test]
fn rounding_zero_accuracy() {
    let zero = Fraction::from_integer(integer(0));
    assert_eq!(frac(7, 2).checked_floor_with_accuracy(&zero), Err(FractionError::ZeroAccuracy));
    assert_eq!(frac(7, 2).checked_ceil_with_accuracy(&zero), Err(FractionError::ZeroAccuracy));
    assert_eq!(frac(7, 2).checked_round_with_accuracy(&zero), Err(FractionError::ZeroAccuracy));
}

#[test]
fn rounding_bounds_on_generated_values() {
    let mut g = Lcg(7);
    for _ in 0..300 {
        let x = g.fraction();
        let a = g.fraction().abs();
        if a.is_zero() {
            continue;
        }
        let lo = x.clone().checked_floor_with_accuracy(&a).unwrap();
        let hi = x.clone().checked_ceil_with_accuracy(&a).unwrap();
        assert_ne!(lo.compare(&x), Ordering::Greater);
        assert_ne!(hi.compare(&x), Ordering::Less);
        let k_lo = lo.checked_div(&a).unwrap();
        let k_hi = hi.checked_div(&a).unwrap();
        assert_eq!(k_lo.denom().to_decimal_string(), "1");
        assert_eq!(k_hi.denom().to_decimal_string(), "1");
    }
}

#[test]
fn parse_numeric_string() {
    assert_eq!(Fraction::from_str_numeric("12.345").unwrap(), frac(2469, 200));
    assert_eq!(Fraction::from_str_numeric("-12.345").unwrap(), frac(-2469, 200));
    assert_eq!(Fraction::from_str_numeric("-0.5").unwrap(), frac(-1, 2));
    assert_eq!(Fraction::from_str_numeric("42").unwrap(), frac(42, 1));
    assert_eq!(Fraction::from_str_numeric("007.100").unwrap(), frac(71, 10));
}

#[test]
fn parse_numeric_string_malformed() {
    for s in ["1.2.3", "", "-", ".5", "1.", "1a", "+1", "1.-2", "--1", "1. 2"] {
        assert_eq!(Fraction::from_str_numeric(s), Err(FractionError::MalformedNumericString), "{}", s);
    }
}

#[test]
fn render_numeric_string() {
    assert_eq!(frac(7, 2).to_string_numeric(5), "3.5");
    assert_eq!(frac(1, 3).to_string_numeric(5), "0.33333");
    assert_eq!(frac(2, 3).to_string_numeric(3), "0.666");
    assert_eq!(frac(2, 3).to_string_numeric(0), "0");
    assert_eq!(frac(-1, 2).to_string_numeric(4), "-0.5");
    assert_eq!(frac(-7, 2).to_string_numeric(0), "-3");
    assert_eq!(frac(2469, 200).to_string_numeric(10), "12.345");
    assert_eq!(frac(1, 40).to_string_numeric(10), "0.025");
    assert_eq!(frac(-120, 1).to_string_numeric(10), "-120");
}

#[test]
fn numeric_round_trip_after_floor() {
    let mut g = Lcg(11);
    let ticks = [frac(1000, 1), frac(1, 1000), frac(1, 8), frac(5, 100)];
    for _ in 0..200 {
        let x = g.fraction();
        for t in ticks.iter() {
            let f = x.clone().checked_floor_with_accuracy(t).unwrap();
            let text = f.to_string_numeric(1000);
            assert_eq!(Fraction::from_str_numeric(&text).unwrap(), f, "{}", text);
        }
    }
}

#[test]
fn divide_by_zero() {
    let r = Fraction::from_integer(integer(5)).checked_div(&Fraction::from_integer(integer(0)));
    assert_eq!(r, Err(FractionError::DivisionByZero));
}

#[test]
fn inverse() {
    assert_eq!(frac(-3, 4).inv().unwrap(), frac(-4, 3));
    assert_eq!(frac(2, 5).inv().unwrap(), frac(5, 2));
    assert_eq!(frac(0, 5).inv(), Err(FractionError::DivisionByZero));
}

#[test]
fn encode_and_decode() {
    let record = frac(-3, 4).encode();
    assert_eq!(record, FractionRecord { numer: "-3".to_string(), denom: "4".to_string() });
    assert_eq!(Fraction::decode(&record).unwrap(), frac(-3, 4));
}

#[test]
fn decode_errors_and_normalisation() {
    let rec = |n: &str, d: &str| FractionRecord { numer: n.to_string(), denom: d.to_string() };
    assert_eq!(Fraction::decode(&rec("1", "0")), Err(FractionError::InvalidDenominator));
    assert_eq!(Fraction::decode(&rec("1", "-0")), Err(FractionError::InvalidDenominator));
    assert_eq!(Fraction::decode(&rec("x", "2")), Err(FractionError::MalformedNumericString));
    assert_eq!(Fraction::decode(&rec("1", "")), Err(FractionError::MalformedNumericString));
    assert_eq!(Fraction::decode(&rec("1_0", "3")), Err(FractionError::MalformedNumericString));
    assert_eq!(Fraction::decode(&rec("x", "0")), Err(FractionError::MalformedNumericString));
    assert_eq!(Fraction::decode(&rec("6", "-4")).unwrap(), frac(-3, 2));
    let big = rec("123456789012345678901234567891", "2");
    assert_eq!(Fraction::decode(&big).unwrap().encode(), big);
}

#[test]
fn encode_round_trip_on_generated_values() {
    let mut g = Lcg(3);
    for _ in 0..300 {
        let f = g.fraction();
        assert_eq!(Fraction::decode(&f.encode()).unwrap(), f);
    }
}

#[test]
fn results_are_in_lowest_terms() {
    let mut g = Lcg(5);
    for _ in 0..200 {
        let a = g.fraction();
        let b = g.fraction();
        let results = [
            a.checked_add(&b).unwrap(),
            a.checked_sub(&b).unwrap(),
            a.checked_mul(&b).unwrap(),
            a.neg(),
            a.abs(),
        ];
        for r in results.iter() {
            let (n, d) = parts(r);
            let again = Fraction::from_raw(Integer::parse_decimal(&n).unwrap(), Integer::parse_decimal(&d).unwrap()).unwrap();
            assert_eq!(parts(&again), (n, d.clone()));
            assert!(!d.starts_with('-') && d != "0");
        }
    }
}

#[test]
fn arithmetic() {
    assert_eq!(frac(1, 2).checked_add(&frac(1, 3)).unwrap(), frac(5, 6));
    assert_eq!(frac(1, 2).checked_sub(&frac(1, 3)).unwrap(), frac(1, 6));
    assert_eq!(frac(2, 3).checked_mul(&frac(9, 4)).unwrap(), frac(3, 2));
    assert_eq!(frac(2, 3).checked_div(&frac(-4, 9)).unwrap(), frac(-3, 2));
    assert_eq!(frac(1, 2).checked_sub(&frac(1, 2)).unwrap(), frac(0, 1));
    assert_eq!(frac(3, 7).neg(), frac(-3, 7));
    assert_eq!(frac(-3, 7).abs(), frac(3, 7));
    assert_eq!(frac(3, 7).abs(), frac(3, 7));
}

#[test]
fn accumulate_in_place() {
    let mut total = frac(1, 4);
    total.add_assign(frac(1, 4));
    assert_eq!(total, frac(1, 2));
    total.sub_assign(frac(3, 4));
    assert_eq!(total, frac(-1, 4));
}

#[test]
fn signs_and_order() {
    assert_eq!(frac(-3, 7).signum(), frac(-1, 1));
    assert_eq!(frac(0, 7).signum(), frac(0, 1));
    assert_eq!(frac(3, 7).signum(), frac(1, 1));
    assert!(frac(-3, 7).is_negative() && !frac(-3, 7).is_positive());
    assert!(frac(3, 7).is_positive() && !frac(3, 7).is_zero());
    assert!(frac(0, 7).is_zero() && !frac(0, 7).is_positive() && !frac(0, 7).is_negative());
    assert_eq!(frac(1, 3).compare(&frac(1, 2)), Ordering::Less);
    assert_eq!(frac(2, 4).compare(&frac(1, 2)), Ordering::Equal);
    assert_eq!(frac(-1, 3).compare(&frac(-1, 2)), Ordering::Greater);
    assert_eq!(frac(5, 2).abs_sub(&frac(1, 2)), frac(2, 1));
    assert_eq!(frac(1, 2).abs_sub(&frac(5, 2)), frac(0, 1));
    assert_eq!(Fraction::default(), frac(0, 1));
}

#[test]
fn integers_in_text() {
    assert_eq!(integer(-123).to_decimal_string(), "-123");
    assert_eq!(integer(0).to_decimal_string(), "0");
    assert_eq!(integer(i64::MIN).to_decimal_string(), "-9223372036854775808");
    let big = Integer::parse_decimal("-98765432109876543210").unwrap();
    assert_eq!(big.to_decimal_string(), "-98765432109876543210");
    assert!(big.is_negative());
    assert!(Integer::parse_decimal("+5").is_none());
    assert!(Integer::parse_decimal("").is_none());
    let (q, r) = integer(47).div_rem(&integer(10));
    assert_eq!((q.to_decimal_string(), r.to_decimal_string()), pair("4", "7"));
    assert_eq!(integer(-6).mul(&integer(7)).to_decimal_string(), "-42");
    assert_eq!(integer(3).compare(&integer(-3)), Ordering::Greater);
}

const TESTS_CASES: usize = 1000;
const FRACTION_BYTES: usize = 4;

/// Byte strings of at most `max_len` bytes.
fn bytes(g: &mut Lcg, max_len: usize) -> Vec<u8> {
    let len = (g.next().unsigned_abs() as usize) % (max_len + 1);
    (0..len).map(|_| (g.next() & 0xff) as u8).collect()
}

fn sample(g: &mut Lcg) -> Fraction {
    let n = bytes(g, FRACTION_BYTES);
    let d = bytes(g, FRACTION_BYTES);
    Fraction::from_unsigned_le_bytes(&n, &d)
}

#[test]
fn sample_from_bytes() {
    assert_eq!(Fraction::from_unsigned_le_bytes(&[6], &[4]), frac(3, 2));
    assert_eq!(Fraction::from_unsigned_le_bytes(&[0, 1], &[]), frac(256, 1));
    assert_eq!(Fraction::from_unsigned_le_bytes(&[], &[0, 0]), frac(0, 1));
    assert_eq!(Fraction::from_unsigned_le_bytes(&[255], &[0]), frac(255, 1));
}

#[test]
fn serialization() {
    let mut g = Lcg(17);
    for _ in 0..TESTS_CASES {
        let fraction = sample(&mut g);
        assert_eq!(fraction, Fraction::decode(&fraction.encode()).unwrap());
    }
}

#[test]
fn to_numeric_from_numeric() {
    const ACCURACY: usize = 1000;
    let mut g = Lcg(19);
    for _ in 0..TESTS_CASES {
        let fraction = sample(&mut g);
        let accuracy = Fraction::from_integer(Integer::from_i64(ACCURACY as i64));
        let f_rounded = fraction.checked_floor_with_accuracy(&accuracy).unwrap();
        let f_rounded_tostr = f_rounded.to_string_numeric(ACCURACY);
        let f_rounded_fromstr = Fraction::from_str_numeric(&f_rounded_tostr).unwrap();
        assert_eq!(f_rounded, f_rounded_fromstr);
    }
}

#[test]
fn ratio_text() {
    assert_eq!(frac(-3, 4).to_ratio_string(), "-3/4");
    assert_eq!(frac(6, 3).to_ratio_string(), "2");
    assert_eq!(frac(0, 3).to_ratio_string(), "0");
}

#[test]
fn render_negative_without_digits() {
    assert_eq!(frac(-1, 2).to_string_numeric(0), "0");
    assert_eq!(frac(-1, 3).to_string_numeric(0), "0");
    assert_eq!(frac(-1, 2).to_string_numeric(1), "-0.5");
    assert_eq!(frac(-3, 2).to_string_numeric(0), "-1");
}

#[test]
fn read_ratio_text() {
    assert_eq!(Fraction::from_ratio_str("6/-4").unwrap(), frac(-3, 2));
    assert_eq!(Fraction::from_ratio_str("-7").unwrap(), frac(-7, 1));
    assert_eq!("10/15".parse::<Fraction>().unwrap(), frac(2, 3));
    assert_eq!(Fraction::from_ratio_str("1/0"), Err(FractionError::InvalidDenominator));
    assert_eq!(Fraction::from_ratio_str("1/-0"), Err(FractionError::InvalidDenominator));
    for s in ["", "/", "1/", "/2", "1/2/3", "+1/2", "1_0/3", "1.5", "a/b"] {
        assert_eq!(Fraction::from_ratio_str(s), Err(FractionError::MalformedNumericString), "{}", s);
    }
    let f = frac(-123456789, 1000);
    assert_eq!(Fraction::from_ratio_str(&f.to_ratio_string()).unwrap(), f);
}
