//! A persistent text rope together with a few independent numeric utilities:
//! a bit-packed boolean array, prime sieves, decimal big integers and
//! reduced rational numbers.

pub mod big_bcd;
pub mod bool_arr;
pub mod digits;
pub mod divisibility;
pub mod primes;
pub mod ratio;
pub mod rope;
