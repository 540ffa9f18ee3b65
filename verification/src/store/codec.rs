//! Block codecs: how the bytes of a block are stored.

use crate::error::StoreError;
use vstd::prelude::*;

verus! {

/// A way to store the bytes of a block. What a codec does to given bytes is
/// fixed by its type: `compressed` and `decompressed` say what, and every
/// implementation proves that decompressing undoes compressing.
pub trait BlockCodec {
    /// The stored form of `block`.
    spec fn compressed(block: Seq<u8>) -> Seq<u8>;

    /// The block that `stored` stands for, or `None` where it stands for none.
    spec fn decompressed(stored: Seq<u8>) -> Option<Seq<u8>>;

    /// Decompressing the stored form of a block gives the block back.
    proof fn lemma_round_trip(block: Seq<u8>)
        ensures
            Self::decompressed(Self::compressed(block)) == Some(block),
    ;

    /// Replaces the content of `out` by the stored form of `block`.
    fn compress(&self, block: &[u8], out: &mut Vec<u8>)
        ensures
            final(out)@ == Self::compressed(block@),
    ;

    /// Replaces the content of `out` by the block that `stored` stands for.
    /// Fails exactly where `stored` stands for no block.
    fn decompress(&self, stored: &[u8], out: &mut Vec<u8>) -> (r: Result<(), StoreError>)
        ensures
            match r {
                Ok(_) => Self::decompressed(stored@) == Some(final(out)@),
                Err(e) => e == StoreError::CodecFailure && Self::decompressed(stored@) is None,
            },
    ;
}

/// Appends the bytes of `src` to `out`.
pub fn append_bytes(out: &mut Vec<u8>, src: &[u8])
    ensures
        final(out)@ == old(out)@ + src@,
{
    let mut i: usize = 0;
    while i < src.len()
        invariant
            i <= src@.len(),
            out@ == old(out)@ + src@.take(i as int),
        decreases src@.len() - i,
    {
        out.push(src[i]);
        i = i + 1;
        assert(out@ =~= old(out)@ + src@.take(i as int));
    }
    assert(src@.take(src@.len() as int) =~= src@);
}

/// The codec that stores a block as it is.
#[derive(Clone, Copy, Debug)]
pub struct Uncompressed;

impl BlockCodec for Uncompressed {
    open spec fn compressed(block: Seq<u8>) -> Seq<u8> {
        block
    }

    open spec fn decompressed(stored: Seq<u8>) -> Option<Seq<u8>> {
        Some(stored)
    }

    proof fn lemma_round_trip(block: Seq<u8>) {
    }

    fn compress(&self, block: &[u8], out: &mut Vec<u8>) {
        out.clear();
        append_bytes(out, block);
        assert(out@ =~= block@);
    }

    fn decompress(&self, stored: &[u8], out: &mut Vec<u8>) -> (r: Result<(), StoreError>) {
        out.clear();
        append_bytes(out, stored);
        assert(out@ =~= stored@);
        Ok(())
    }
}

} // verus!
