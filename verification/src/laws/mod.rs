//! Laws that relate the functions of the library to one another.

pub mod members;
pub mod place;
pub mod round_trip;
pub mod subsequence;
pub mod well_formed;
