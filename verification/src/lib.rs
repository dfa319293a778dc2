//! Conversion of a signed count of seconds since the Unix epoch
//! (1970-01-01T00:00:00 UTC) into a civil calendar date and time of day in
//! the proleptic Gregorian calendar, together with a fixed textual rendering.
//!
//! The calendar decomposition is verified: the result always satisfies the
//! calendar's range invariants, and re-encoding it as epoch seconds gives
//! back exactly the input timestamp.

pub mod calendar;
pub mod render;
