//! Digits, what they are worth, and the conversions built on them.

pub mod converting;
pub mod decimal;
pub mod fraction;
pub mod laws;
pub mod notation;
