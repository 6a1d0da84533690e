//! The lossless wire form of a fraction: numerator and denominator as
//! base-10 integer literals.

use vstd::prelude::*;
use crate::integer::{Integer, int_decimal, integer_literal_value, is_integer_literal, lemma_decimal_round_trip};
use crate::fraction::{Fraction, FractionError, is_reduced, reduce};
use crate::lowest_terms::lemma_reduce_reduced;

verus! {

/// The wire record: field `numer` and field `denom`, each an integer literal.
#[derive(Debug, Clone, PartialEq, Eq)]
pub struct FractionRecord {
    pub numer: String,
    pub denom: String,
}

/// What decoding the texts `numer` and `denom` yields.
pub open spec fn decode_result(numer: Seq<char>, denom: Seq<char>) -> Result<(int, int), FractionError> {
    if !is_integer_literal(numer) || !is_integer_literal(denom) {
        Err(FractionError::MalformedNumericString)
    } else if integer_literal_value(denom) == 0 {
        Err(FractionError::InvalidDenominator)
    } else {
        Ok(reduce(integer_literal_value(numer), integer_literal_value(denom)))
    }
}

impl Fraction {
    /// The wire record of the value.
    pub fn encode(&self) -> (r: FractionRecord)
        ensures
            r.numer@ == int_decimal(self@.0),
            r.denom@ == int_decimal(self@.1),
    {
        FractionRecord { numer: self.numer().to_decimal_string(), denom: self.denom().to_decimal_string() }
    }

    /// Reads a wire record back; fails on a field that is no integer literal,
    /// then on a zero denominator.
    pub fn decode(record: &FractionRecord) -> (r: Result<Fraction, FractionError>)
        ensures
            r is Ok <==> decode_result(record.numer@, record.denom@) is Ok,
            r matches Ok(f) ==> f.wf() && decode_result(record.numer@, record.denom@) == Ok::<
                (int, int),
                FractionError,
            >(f@),
            r matches Err(e) ==> decode_result(record.numer@, record.denom@) == Err::<
                (int, int),
                FractionError,
            >(e),
    {
        let numer = Integer::parse_decimal(record.numer.as_str());
        let denom = Integer::parse_decimal(record.denom.as_str());
        match (numer, denom) {
            (Some(n), Some(d)) => Fraction::from_raw(n, d),
            _ => Err(FractionError::MalformedNumericString),
        }
    }
}

/// Decoding the record that encoding gives yields the value encoded.
pub proof fn lemma_decode_encode(p: (int, int))
    requires
        is_reduced(p),
    ensures
        decode_result(int_decimal(p.0), int_decimal(p.1)) == Ok::<(int, int), FractionError>(p),
{
    lemma_decimal_round_trip(p.0);
    lemma_decimal_round_trip(p.1);
    lemma_reduce_reduced(p);
}

} // verus!
