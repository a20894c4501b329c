//! A converter of numbers between the numeral systems of base 2 to 36.
//!
//! A request is one line of text, `number_base > base` or, for a number with a
//! point, `number_base > digits_base`. [`converter`] reads and checks it and
//! hands the number to [`digits`], which converts it. [`commands`] and
//! [`handlers`] hold what a chat front end needs to decide how a line is
//! answered, and [`journal`] tells whether a user has been seen before;
//! sending the answer and keeping the users is the front end's part.

pub mod commands;
pub mod converter;
pub mod digits;
pub mod handlers;
pub mod journal;
pub mod text;
