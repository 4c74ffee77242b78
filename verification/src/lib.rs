//! Duration-weighted temperature statistics for one weather station and one
//! year.
//!
//! Fixed-width observation records are parsed (`record`), filtered by their
//! quality tags (`quality`), placed on a minute-of-year timeline in which
//! each reading counts until the next (`timeline`, `calendar`), and summed
//! day by day (`daily`). `location` picks the days that are pooled into the
//! statistics of a location, `station` runs the whole from lines to days,
//! `archive` gets the lines out of what the archive serves, and
//! `distribution` sums the durations by temperature.
//!
//! Everything here is integer arithmetic. The sums that a mean and a
//! standard deviation are made of are kept exact; dividing them and taking
//! square roots is left to the caller.

pub mod error;
pub mod calendar;
pub mod decimal;
pub mod record;
pub mod quality;
pub mod timeline;
pub mod daily;
pub mod distribution;
pub mod location;
pub mod station;
pub mod archive;
