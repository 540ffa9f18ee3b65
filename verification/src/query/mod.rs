//! What a query reports about single documents.

pub mod explanation;

pub use explanation::does_not_match;
pub use explanation::QueryError;
