//! Reading documents back from a store.

use crate::common::decode_u32;
use crate::common::decode_vint;
use crate::common::deserialize_u32;
use crate::common::deserialize_u64;
use crate::common::lemma_le_bounds;
use crate::common::u32_le;
use crate::common::u64_le;
use crate::common::vint_parse;
use crate::directory::AdvancingReadOnlySource;
use crate::directory::ReadOnlySource;
use crate::error::DocId;
use crate::error::StoreError;
use crate::store::block_index::floor_entry;
use crate::store::block_index::parse_block_index;
use crate::store::block_index::BlockIndex;
use crate::store::codec::BlockCodec;
use vstd::prelude::*;
use vstd::slice::slice_subrange;
use vstd::slice::slice_to_vec;

verus! {

/// The length of the footer: an eight-byte offset and a four-byte count.
pub const FOOTER_LEN: usize = 12;

/// What the footer of `store` says: where the index region starts, which is
/// also the length of the data region, and how many documents there are.
/// `None` where `store` is shorter than a footer or the offset points past
/// the start of the footer.
pub open spec fn footer_of(store: Seq<u8>) -> Option<(int, u32)> {
    if store.len() < 12 {
        None
    } else {
        let footer_offset = store.len() - 12;
        let offset = u64_le(store.subrange(footer_offset, footer_offset + 8));
        let max_doc = u32_le(store.subrange(footer_offset + 8, footer_offset + 12));
        if offset > footer_offset {
            None
        } else {
            Some((offset, max_doc as u32))
        }
    }
}

/// The stored bytes of the block that starts at `offset` of the data region:
/// a four-byte little-endian length, then that many bytes. `None` where the
/// length or the bytes would reach past the end of the region.
pub open spec fn block_payload(data: Seq<u8>, offset: int) -> Option<Seq<u8>> {
    if offset < 0 || offset + 4 > data.len() {
        None
    } else {
        let len = u32_le(data.subrange(offset, offset + 4));
        if offset + 4 + len > data.len() {
            None
        } else {
            Some(data.subrange(offset + 4, offset + 4 + len))
        }
    }
}

/// The document of rank `k` in a block: a block is a run of documents, each
/// after a variable-length integer that gives its length. `None` where a
/// length does not parse or reaches past the end of the block.
pub open spec fn nth_document(block: Seq<u8>, k: nat) -> Option<Seq<u8>>
    decreases k,
{
    match vint_parse(block) {
        None => None,
        Some((len, n)) => if n + len > block.len() {
            None
        } else if k == 0 {
            Some(block.subrange(n as int, n + len))
        } else {
            nth_document(block.skip(n + len), (k - 1) as nat)
        },
    }
}

/// The identifier of the first document of the block that an index entry
/// with this key stands for: a block is entered under the identifier of its
/// first document plus one, and the key 0 of a lookup that found no entry
/// stands for the first block.
pub open spec fn first_doc_of(key: u64) -> int {
    if key == 0 {
        0
    } else {
        key - 1
    }
}

/// Where the block that holds `doc_id` starts in the data region, as the
/// index says: the offset of the floor entry of `doc_id + 1`. Zero where the
/// index does not parse.
pub open spec fn block_offset_of(index_region: Seq<u8>, doc_id: DocId) -> u64 {
    match parse_block_index(index_region) {
        None => 0,
        Some(entries) => floor_entry(entries, (doc_id + 1) as u64).1,
    }
}

/// What a store with this data region, index region and document count
/// holds under `doc_id`, for the codec `C`.
pub open spec fn document_at<C: BlockCodec>(
    data: Seq<u8>,
    index_region: Seq<u8>,
    max_doc: DocId,
    doc_id: DocId,
) -> Result<Seq<u8>, StoreError> {
    if doc_id >= max_doc {
        Err(StoreError::DocumentNotFound(doc_id))
    } else {
        match parse_block_index(index_region) {
            None => Err(StoreError::FormatCorruption),
            Some(entries) => {
                let (key, offset) = floor_entry(entries, (doc_id + 1) as u64);
                match block_payload(data, offset as int) {
                    None => Err(StoreError::FormatCorruption),
                    Some(stored) => match C::decompressed(stored) {
                        None => Err(StoreError::CodecFailure),
                        Some(block) => match nth_document(
                            block,
                            (doc_id - first_doc_of(key)) as nat,
                        ) {
                            None => Err(StoreError::FormatCorruption),
                            Some(document) => Ok(document),
                        },
                    },
                }
            },
        }
    }
}

/// What a store with these bytes holds under `doc_id`: the footer parts the
/// bytes into the regions, and the regions give the document.
pub open spec fn store_document<C: BlockCodec>(store: Seq<u8>, doc_id: DocId) -> Result<
    Seq<u8>,
    StoreError,
> {
    match footer_of(store) {
        None => Err(StoreError::FormatCorruption),
        Some((offset, max_doc)) => document_at::<C>(
            store.subrange(0, offset),
            store.subrange(offset, store.len() - 12),
            max_doc,
            doc_id,
        ),
    }
}

/// The sizes of the two regions of a store, in bytes.
#[derive(Clone, Copy, Debug, PartialEq, Eq, Structural)]
pub struct StoreSpaceUsage {
    data: usize,
    offsets: usize,
}

impl StoreSpaceUsage {
    pub closed spec fn data(&self) -> int {
        self.data as int
    }

    pub closed spec fn offsets(&self) -> int {
        self.offsets as int
    }

    pub fn new(data: usize, offsets: usize) -> (r: StoreSpaceUsage)
        ensures
            r.data() == data,
            r.offsets() == offsets,
    {
        StoreSpaceUsage { data, offsets }
    }

    /// The length of the data region.
    pub fn data_usage(&self) -> (n: usize)
        ensures
            n == self.data(),
    {
        self.data
    }

    /// The length of the index region.
    pub fn offsets_usage(&self) -> (n: usize)
        ensures
            n == self.offsets(),
    {
        self.offsets
    }
}

/// Parts a store into its data region, its index region and its document
/// count, as the footer says. Fails exactly where `footer_of` gives `None`.
pub fn split_source(data: ReadOnlySource) -> (r: Result<
    (ReadOnlySource, ReadOnlySource, DocId),
    StoreError,
>)
    requires
        data.wf(),
    ensures
        match r {
            Ok((data_source, index_source, max_doc)) => {
                &&& footer_of(data@) matches Some((offset, count))
                &&& max_doc == count
                &&& data_source.wf()
                &&& index_source.wf()
                &&& data_source.is_slice_of(&data, 0, offset)
                &&& index_source.is_slice_of(&data, offset, data@.len() - 12)
                &&& data_source@ == data@.subrange(0, offset)
                &&& index_source@ == data@.subrange(offset, data@.len() - 12)
            },
            Err(e) => e == StoreError::FormatCorruption && footer_of(data@) is None,
        },
{
    let data_len = data.len();
    if data_len < FOOTER_LEN {
        return Err(StoreError::FormatCorruption);
    }
    let footer_offset = data_len - FOOTER_LEN;
    let mut footer = AdvancingReadOnlySource::from(data.slice(footer_offset, data_len));
    let ghost footer_bytes = footer@;
    assert(footer_bytes.take(8) =~= data@.subrange(footer_offset as int, footer_offset + 8));
    assert(footer_bytes.skip(8).take(4) =~= data@.subrange(
        footer_offset + 8,
        footer_offset + 12,
    ));
    proof {
        lemma_le_bounds(footer_bytes.skip(8).take(4));
    }
    let offset = match deserialize_u64(&mut footer) {
        Ok(offset) => offset,
        Err(e) => {
            return Err(e);
        },
    };
    let max_doc = match deserialize_u32(&mut footer) {
        Ok(max_doc) => max_doc,
        Err(e) => {
            return Err(e);
        },
    };
    if offset > footer_offset as u64 {
        return Err(StoreError::FormatCorruption);
    }
    let offset = offset as usize;
    Ok((data.slice(0, offset), data.slice(offset, footer_offset), max_doc))
}

/// Reads the documents of one store.
///
/// A reader keeps the block it decompressed last, so that reading documents
/// of one block in a row decompresses it once. That is all a reader
/// remembers: what `get` returns depends on the store alone.
pub struct StoreReader<C: BlockCodec> {
    data: ReadOnlySource,
    offset_index_source: ReadOnlySource,
    current_block_offset: Option<usize>,
    current_block: Vec<u8>,
    max_doc: DocId,
    codec: C,
}

impl<C: BlockCodec> StoreReader<C> {
    /// The bytes of the data region.
    pub closed spec fn data_region(&self) -> Seq<u8> {
        self.data@
    }

    /// The bytes of the index region.
    pub closed spec fn index_region(&self) -> Seq<u8> {
        self.offset_index_source@
    }

    /// The number of documents.
    pub closed spec fn spec_max_doc(&self) -> DocId {
        self.max_doc
    }

    /// Where the block that is kept starts in the data region, if one is kept.
    pub closed spec fn cached_offset(&self) -> Option<usize> {
        self.current_block_offset
    }

    /// The bytes that are kept; they mean something only where
    /// `cached_offset` is `Some`.
    pub closed spec fn cached_block(&self) -> Seq<u8> {
        self.current_block@
    }

    /// The regions are well-formed sources with their cursors at the start,
    /// and the block that is kept, if any, is what the codec makes of the
    /// stored bytes at its offset.
    pub closed spec fn wf(&self) -> bool {
        &&& self.data.wf()
        &&& self.data.position() == self.data.start()
        &&& self.offset_index_source.wf()
        &&& self.cache_valid()
    }

    /// The block that is kept, if any, is the block of the data region at its
    /// offset.
    pub open spec fn cache_valid(&self) -> bool {
        self.cached_offset() matches Some(offset) ==> {
            &&& block_payload(self.data_region(), offset as int) matches Some(stored)
            &&& C::decompressed(stored) == Some(self.cached_block())
        }
    }

    /// Both readers read the same store.
    pub open spec fn same_store(&self, other: &StoreReader<C>) -> bool {
        &&& self.data_region() == other.data_region()
        &&& self.index_region() == other.index_region()
        &&& self.spec_max_doc() == other.spec_max_doc()
    }

    /// What the store holds under `doc_id`.
    pub open spec fn document(&self, doc_id: DocId) -> Result<Seq<u8>, StoreError> {
        document_at::<C>(self.data_region(), self.index_region(), self.spec_max_doc(), doc_id)
    }

    /// Opens a store. Fails exactly where the footer is missing or points
    /// past its own start.
    pub fn from_source(data: ReadOnlySource, codec: C) -> (r: Result<StoreReader<C>, StoreError>)
        requires
            data.wf(),
        ensures
            match r {
                Ok(reader) => {
                    &&& footer_of(data@) matches Some((offset, count))
                    &&& reader.wf()
                    &&& reader.cached_offset() is None
                    &&& reader.data_region() == data@.subrange(0, offset)
                    &&& reader.index_region() == data@.subrange(offset, data@.len() - 12)
                    &&& reader.spec_max_doc() == count
                    &&& forall|doc_id: DocId| #[trigger]
                        reader.document(doc_id) == store_document::<C>(data@, doc_id)
                },
                Err(e) => e == StoreError::FormatCorruption && footer_of(data@) is None,
            },
    {
        match split_source(data) {
            Ok((data_source, offset_index_source, max_doc)) => Ok(
                StoreReader {
                    data: data_source,
                    offset_index_source,
                    current_block_offset: None,
                    current_block: Vec::new(),
                    max_doc,
                    codec,
                },
            ),
            Err(e) => Err(e),
        }
    }

    /// The number of documents in the store.
    pub fn max_doc(&self) -> (n: DocId)
        ensures
            n == self.spec_max_doc(),
    {
        self.max_doc
    }

    /// Reads the block index off the index region.
    pub fn block_index(&self) -> (r: Result<BlockIndex, StoreError>)
        requires
            self.wf(),
        ensures
            match r {
                Ok(index) => index.wf() && parse_block_index(self.index_region()) == Some(index@),
                Err(e) => e == StoreError::FormatCorruption && parse_block_index(
                    self.index_region(),
                ) is None,
            },
    {
        BlockIndex::from_source(AdvancingReadOnlySource::from(self.offset_index_source.clone()))
    }

    /// The block that holds `doc_id`: the identifier of its first document
    /// and its offset in the data region.
    pub fn block_offset(&self, doc_id: DocId) -> (r: Result<(DocId, u64), StoreError>)
        requires
            self.wf(),
        ensures
            match r {
                Ok((first_doc_id, offset)) => {
                    &&& parse_block_index(self.index_region()) matches Some(entries)
                    &&& first_doc_id == first_doc_of(floor_entry(entries, (doc_id + 1) as u64).0)
                    &&& offset == floor_entry(entries, (doc_id + 1) as u64).1
                    &&& first_doc_id <= doc_id
                },
                Err(e) => e == StoreError::FormatCorruption && parse_block_index(
                    self.index_region(),
                ) is None,
            },
    {
        match self.block_index() {
            Ok(index) => {
                let (key, offset) = index.seek(doc_id as u64 + 1);
                let first_doc_id: DocId = if key == 0 { 0 } else { (key - 1) as DocId };
                Ok((first_doc_id, offset))
            },
            Err(e) => Err(e),
        }
    }

    /// The bytes of the data region.
    pub fn block_data(&mut self) -> (bytes: Vec<u8>)
        requires
            old(self).wf(),
        ensures
            final(self).wf(),
            final(self).same_store(old(self)),
            final(self).cached_offset() == old(self).cached_offset(),
            final(self).cached_block() == old(self).cached_block(),
            bytes@ == old(self).data_region(),
    {
        match self.data.read_all() {
            Ok(bytes) => bytes,
            Err(_) => Vec::new(),
        }
    }

    /// The stored bytes of the block at `addr` of the data region.
    pub fn compressed_block(&self, addr: usize) -> (r: Result<Vec<u8>, StoreError>)
        requires
            self.wf(),
        ensures
            match r {
                Ok(stored) => block_payload(self.data_region(), addr as int) == Some(stored@),
                Err(e) => e == StoreError::FormatCorruption && block_payload(
                    self.data_region(),
                    addr as int,
                ) is None,
            },
    {
        let data_len = self.data.len();
        if addr > data_len || data_len - addr < 4 {
            return Err(StoreError::FormatCorruption);
        }
        let mut buffer_slice = self.data.slice_from(addr);
        let mut prefix: Vec<u8> = vec![0u8; 4];
        let _ = buffer_slice.read(prefix.as_mut_slice());
        let block_len = decode_u32(prefix.as_slice(), 0);
        if block_len as u64 > (data_len - addr - 4) as u64 {
            return Err(StoreError::FormatCorruption);
        }
        let block_len = block_len as usize;
        let mut block: Vec<u8> = vec![0u8; block_len];
        let _ = buffer_slice.read(block.as_mut_slice());
        Ok(block)
    }

    /// Makes the block at `block_offset` the block that is kept. Nothing is
    /// read where it is kept already. On failure no block is kept.
    pub fn read_block(&mut self, block_offset: usize) -> (r: Result<(), StoreError>)
        requires
            old(self).wf(),
        ensures
            final(self).wf(),
            final(self).same_store(old(self)),
            match r {
                Ok(_) => {
                    &&& final(self).cached_offset() == Some(block_offset)
                    &&& block_payload(old(self).data_region(), block_offset as int) matches Some(stored)
                    &&& C::decompressed(stored) == Some(final(self).cached_block())
                },
                Err(e) => {
                    &&& final(self).cached_offset() is None
                    &&& match block_payload(old(self).data_region(), block_offset as int) {
                        None => e == StoreError::FormatCorruption,
                        Some(stored) => e == StoreError::CodecFailure && C::decompressed(stored)
                            is None,
                    }
                },
            },
    {
        if self.current_block_offset != Some(block_offset) {
            self.current_block_offset = None;
            let stored = match self.compressed_block(block_offset) {
                Ok(stored) => stored,
                Err(e) => {
                    return Err(e);
                },
            };
            match self.codec.decompress(stored.as_slice(), &mut self.current_block) {
                Ok(_) => {},
                Err(e) => {
                    return Err(e);
                },
            }
            self.current_block_offset = Some(block_offset);
        }
        Ok(())
    }

    /// Reads the document `doc_id`: its bytes as they were stored.
    ///
    /// Fails with `DocumentNotFound` where `doc_id` is not below the number
    /// of documents, with `FormatCorruption` where the index, the block or a
    /// document length does not parse, with `CodecFailure` where the codec
    /// rejects the block. What the reader keeps from earlier calls never
    /// shows in the result.
    pub fn get(&mut self, doc_id: DocId) -> (r: Result<Vec<u8>, StoreError>)
        requires
            old(self).wf(),
        ensures
            final(self).wf(),
            final(self).same_store(old(self)),
            match r {
                Ok(document) => {
                    &&& old(self).document(doc_id) == Ok::<Seq<u8>, StoreError>(document@)
                    &&& final(self).cached_offset() == Some(
                        block_offset_of(old(self).index_region(), doc_id) as usize,
                    )
                },
                Err(e) => old(self).document(doc_id) == Err::<Seq<u8>, StoreError>(e),
            },
    {
        if doc_id >= self.max_doc {
            return Err(StoreError::DocumentNotFound(doc_id));
        }
        let (first_doc_id, block_offset) = match self.block_offset(doc_id) {
            Ok(found) => found,
            Err(e) => {
                return Err(e);
            },
        };
        if block_offset > self.data.len() as u64 {
            return Err(StoreError::FormatCorruption);
        }
        match self.read_block(block_offset as usize) {
            Ok(_) => {},
            Err(e) => {
                return Err(e);
            },
        }
        let block = self.current_block.as_slice();
        let skipped: DocId = doc_id - first_doc_id;
        let mut pos: usize = 0;
        let mut i: DocId = 0;
        assert(block@.skip(0) =~= block@);
        while i < skipped
            invariant
                i <= skipped,
                pos <= block@.len(),
                self.wf(),
                self.same_store(old(self)),
                self.cached_offset() == Some(
                    block_offset_of(old(self).index_region(), doc_id) as usize,
                ),
                old(self).document(doc_id) == match nth_document(block@, skipped as nat) {
                    Some(document) => Ok::<Seq<u8>, StoreError>(document),
                    None => Err(StoreError::FormatCorruption),
                },
                nth_document(block@, skipped as nat) == nth_document(
                    block@.skip(pos as int),
                    (skipped - i) as nat,
                ),
            decreases skipped - i,
        {
            let (doc_length, n) = match decode_vint(block, pos) {
                Some(found) => found,
                None => {
                    return Err(StoreError::FormatCorruption);
                },
            };
            if doc_length > (block.len() - pos - n) as u64 {
                return Err(StoreError::FormatCorruption);
            }
            assert(block@.skip(pos as int).skip(n + doc_length) =~= block@.skip(
                pos + n + doc_length,
            ));
            pos = pos + n + doc_length as usize;
            i = i + 1;
        }
        let (doc_length, n) = match decode_vint(block, pos) {
            Some(found) => found,
            None => {
                return Err(StoreError::FormatCorruption);
            },
        };
        if doc_length > (block.len() - pos - n) as u64 {
            return Err(StoreError::FormatCorruption);
        }
        let start = pos + n;
        let document = slice_to_vec(slice_subrange(block, start, start + doc_length as usize));
        assert(document@ =~= block@.skip(pos as int).subrange(n as int, n + doc_length));
        Ok(document)
    }

    /// The sizes of the data region and of the index region.
    pub fn space_usage(&self) -> (r: StoreSpaceUsage)
        requires
            self.wf(),
        ensures
            r.data() == self.data_region().len(),
            r.offsets() == self.index_region().len(),
    {
        StoreSpaceUsage::new(self.data.len(), self.offset_index_source.len())
    }
}

impl<C: BlockCodec + Clone> Clone for StoreReader<C> {
    /// A reader of the same store that shares its bytes and nothing else:
    /// the copy keeps a block of its own.
    fn clone(&self) -> (r: Self)
        ensures
            r.same_store(self),
            r.cached_offset() == self.cached_offset(),
            r.cached_block() == self.cached_block(),
            self.wf() ==> r.wf(),
    {
        let data = self.data.clone();
        let offset_index_source = self.offset_index_source.clone();
        let current_block = self.current_block.clone();
        assert(current_block@ =~= self.current_block@);
        StoreReader {
            data,
            offset_index_source,
            current_block_offset: self.current_block_offset,
            current_block,
            max_doc: self.max_doc,
            codec: self.codec.clone(),
        }
    }
}

/// The block that a reader keeps is never seen in what it returns: two
/// readers of the same store hold the same document under every identifier,
/// whatever block either of them keeps. With the contract of `get`, a reader
/// that has just read from a block and one that never read anything return
/// the same bytes, and so do any number of copies of a reader.
pub proof fn lemma_cache_transparent<C: BlockCodec>(
    warm: StoreReader<C>,
    fresh: StoreReader<C>,
    doc_id: DocId,
)
    requires
        warm.same_store(&fresh),
    ensures
        warm.document(doc_id) == fresh.document(doc_id),
{
}

} // verus!
