//! Assignment of people to recurring duties over a fixed number of weeks,
//! with the spacing rules that keep one person off adjacent occurrences of a
//! duty and off two duties in one week.

pub mod laws;
pub mod roster;
pub mod view_state;

pub use roster::{Conflict, Field, Job, JobID, Person, Roster, RosterError, RosterModel, Slot};
