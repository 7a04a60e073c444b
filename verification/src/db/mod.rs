//! The tables of one tracked search, in memory.

pub mod models;
pub mod record;
pub mod tables;
