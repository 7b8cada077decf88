//! The state of a scan in progress.
pub mod search_state;
