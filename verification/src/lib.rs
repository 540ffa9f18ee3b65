//! A read-only document store: documents are kept in compressed blocks,
//! located through a block index, and read through shared, sliceable views
//! over an immutable byte buffer.

pub mod common;
pub mod directory;
pub mod error;
pub mod query;
pub mod store;

pub use error::DocId;
pub use error::StoreError;
