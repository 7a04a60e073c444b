//! Tracking of apartments for sale: which listings belong to one household,
//! which have been taken down, and what a page, a file or a form asks for.

pub mod date;
pub mod db;
pub mod dedup;
pub mod delist;
pub mod double;
pub mod import_faults;
pub mod import_json;
pub mod import_steps;
pub mod json;
pub mod pipeline;
pub mod query;
pub mod scraper;
pub mod text;
pub mod web;
