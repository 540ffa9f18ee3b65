//! The document store: compressed blocks of documents, a block index that
//! locates the block of a document, and a footer that locates the index.

pub mod block_index;
pub mod codec;
pub mod layout;
pub mod reader;
pub mod run_length;
pub mod writer;

pub use block_index::BlockIndex;
pub use codec::BlockCodec;
pub use codec::Uncompressed;
pub use reader::StoreReader;
pub use reader::StoreSpaceUsage;
pub use run_length::RunLength;
pub use writer::StoreWriter;
