//! Simulation of repeated rolls of a six-sided die.
//!
//! A run draws one random integer per trial, derives a die face from it and
//! counts how often each face comes up. The library holds everything but the
//! entropy source itself: a caller reads the entropy and hands each outcome in.

pub mod entropy;
pub mod face;
pub mod table;
pub mod tally;
pub mod trial;

pub use entropy::random_int_from_byte;
pub use face::die_roll;
pub use table::FrequencyTable;
pub use trial::{get_longrunning_frequency, Progress, TrialRun};
