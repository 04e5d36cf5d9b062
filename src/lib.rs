//! How many independent trials it takes before an event of a given
//! probability has most likely occurred at least once.
//!
//! The probability is read from the tokens of a command line in one of four
//! notations (`0.5`, `50%`, `2` for one chance in two, `1/2`); its value is kept
//! exactly, as the digits that were written.

pub mod digits;
pub mod grammar;
pub mod probability;
pub mod significance;
pub mod text;

pub use probability::{parse_expression, parse_tokens, ParseError, Probability};
pub use significance::Significance;
