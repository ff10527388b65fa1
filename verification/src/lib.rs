//! A pushup tracker: date-stamped workout records, their persistence as a
//! JSON list, and the statistics that project when a cumulative target will
//! be reached.

pub mod date;
pub mod codec;
pub mod sort;
pub mod stats;
pub mod workout;
