//! Exact rational arithmetic for prices, balances and tick sizes: fractions
//! kept in lowest terms, checked arithmetic, rounding to a tick size, and a
//! decimal text form and a lossless wire form that read back exactly.

pub mod integer;
pub mod fraction;
pub mod lowest_terms;
pub mod numeric;
pub mod codec;
pub mod auth;
