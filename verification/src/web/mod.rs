//! The pages and the forms.

pub mod handlers;
pub mod shown;
pub mod templates;
