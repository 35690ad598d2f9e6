//! Filters over event logs.

pub mod activities;
pub mod attributes;
pub mod case_size;
pub mod time;
pub mod variants;
