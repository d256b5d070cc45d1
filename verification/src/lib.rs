//! A timestamp wrapper that converts seconds since a fixed epoch into a
//! Gregorian civil date and time of day, and renders the result as an
//! ISO-8601 string. All conversion logic is integer arithmetic, verified
//! against a mathematical model of the calendar.

pub mod calendar;
pub mod datetime;

pub use datetime::Datetime;
pub use datetime::UtcSuffixStyle;
