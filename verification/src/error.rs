//! What can go wrong while a station-year is processed.

use vstd::prelude::*;

verus! {

/// The numeric fields of an observation record.
#[derive(Clone, Copy, Debug, PartialEq, Eq)]
pub enum Field {
    Year,
    Month,
    Day,
    Hour,
    Minute,
    Temperature,
}

/// What is wrong with a record.
#[derive(Clone, Copy, Debug, PartialEq, Eq)]
pub enum Fault {
    /// The line ends before its last field does.
    TooShort,
    /// The field does not hold a decimal integer of its type.
    NotANumber(Field),
    /// The record's year is not the year of the first record.
    YearMismatch,
    /// The record is not later than the record before it.
    TimeNotIncreasing,
}

/// The three ways in which processing fails.
#[derive(Clone, Copy, Debug, PartialEq, Eq)]
pub enum Error {
    /// A record cannot be used as it stands.
    MalformedRecord(Fault),
    /// A month, day, hour or minute lies outside the calendar.
    InvalidDate,
    /// No day of the year holds any data.
    InsufficientData,
}

/// An error together with the position, in the sequence that was handed in,
/// of the first item that caused it.
#[derive(Clone, Copy, Debug, PartialEq, Eq)]
pub struct Rejection {
    pub index: usize,
    pub error: Error,
}

} // verus!
