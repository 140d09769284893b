//! Digits of pi by the Chudnovsky series.
//!
//! The series is summed by binary splitting ([`series`], [`splitting`]), the
//! square root of 10005 that it needs comes from a Pell recurrence
//! ([`pell`]), and [`pi`] puts the two together and writes the digits.
//! [`summation`] proves that binary splitting sums the series as it is
//! written down with factorials, and [`precision`] that enough of it is
//! summed.
//!
//! The arithmetic on large numbers is `num_bigint`'s, reached through
//! [`integer`]; [`encoding`] proves that the bytes in which it hands a number
//! out are fixed by the number. [`products`] writes the triple of a range
//! out as two products and a sum.

pub mod decimal;
pub mod encoding;
pub mod integer;
pub mod pell;
pub mod pi;
pub mod precision;
pub mod products;
pub mod rational;
pub mod series;
pub mod splitting;
pub mod summation;
