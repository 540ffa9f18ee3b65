//! Read-only access to the bytes of a file.

pub mod read_only_source;

pub use read_only_source::AdvancingReadOnlySource;
pub use read_only_source::BoxedData;
pub use read_only_source::ReadOnlySource;
pub use read_only_source::SeekFrom;
