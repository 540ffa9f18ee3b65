use vstd::prelude::*;

verus! {

/// Identifier of a document inside one store: its rank in insertion order.
pub type DocId = u32;

/// Why a read from a source or from a store failed.
#[derive(Clone, Copy, Debug, PartialEq, Eq, Structural)]
pub enum StoreError {
    /// The bytes do not follow the store layout: a footer that disagrees with
    /// the length, an index region that does not parse, a block or a document
    /// whose length prefix points past the end of what holds it.
    FormatCorruption,
    /// The block codec rejected a compressed block.
    CodecFailure,
    /// A seek or an access outside the window of a source.
    BoundsViolation,
    /// The store holds no document with this identifier.
    DocumentNotFound(DocId),
}

impl StoreError {
    /// A short description, the same for every value of one variant.
    pub fn description(&self) -> (s: &'static str)
        ensures
            s@ == Self::description_of(*self),
    {
        match self {
            StoreError::FormatCorruption => "the store bytes are corrupted",
            StoreError::CodecFailure => "the block codec failed",
            StoreError::BoundsViolation => "access outside the source window",
            StoreError::DocumentNotFound(_) => "no such document",
        }
    }

    pub open spec fn description_of(e: StoreError) -> Seq<char> {
        match e {
            StoreError::FormatCorruption => "the store bytes are corrupted"@,
            StoreError::CodecFailure => "the block codec failed"@,
            StoreError::BoundsViolation => "access outside the source window"@,
            StoreError::DocumentNotFound(_) => "no such document"@,
        }
    }
}

} // verus!
