//! The bytes of a store, as a function of the documents in it.
//!
//! A store is a data region, an index region and a footer. The data region
//! is a run of stored blocks; a block holds one or more documents. The index
//! region has one entry for each block: the identifier of its first document
//! plus one, and the offset at which the block starts.

use crate::common::lemma_u32_le_round_trip;
use crate::common::lemma_u64_le_round_trip;
use crate::common::lemma_vint_round_trip;
use crate::common::u32_le_bytes;
use crate::common::u64_le_bytes;
use crate::common::vint_bytes;
use crate::common::vint_parse;
use crate::error::DocId;
use crate::error::StoreError;
use crate::store::block_index::floor_entry;
use crate::store::block_index::lemma_floor_entry_at;
use crate::store::block_index::parse_block_index;
use crate::store::block_index::parse_entries;
use crate::store::block_index::strictly_increasing;
use crate::store::codec::BlockCodec;
use crate::store::reader::block_payload;
use crate::store::reader::footer_of;
use crate::store::reader::nth_document;
use crate::store::reader::store_document;
use vstd::prelude::*;

verus! {

/// The bytes of a block before it is compressed: each document after the
/// variable-length encoding of its length.
pub open spec fn block_bytes(docs: Seq<Seq<u8>>) -> Seq<u8>
    decreases docs.len(),
{
    if docs.len() == 0 {
        Seq::empty()
    } else {
        vint_bytes(docs[0].len()) + docs[0] + block_bytes(docs.skip(1))
    }
}

/// A block as the data region holds it: the four-byte length of its stored
/// form, then the stored form.
pub open spec fn stored_block<C: BlockCodec>(docs: Seq<Seq<u8>>) -> Seq<u8> {
    let stored = C::compressed(block_bytes(docs));
    u32_le_bytes(stored.len() as u32) + stored
}

/// The data region: the blocks one after the other.
pub open spec fn data_region_of<C: BlockCodec>(blocks: Seq<Seq<Seq<u8>>>) -> Seq<u8>
    decreases blocks.len(),
{
    if blocks.len() == 0 {
        Seq::empty()
    } else {
        data_region_of::<C>(blocks.drop_last()) + stored_block::<C>(blocks.last())
    }
}

/// The documents of all blocks, in order: the document `i` of this sequence
/// has the identifier `i`.
pub open spec fn documents_of(blocks: Seq<Seq<Seq<u8>>>) -> Seq<Seq<u8>>
    decreases blocks.len(),
{
    if blocks.len() == 0 {
        Seq::empty()
    } else {
        documents_of(blocks.drop_last()) + blocks.last()
    }
}

/// The index entry of the block `j`: the number of documents before it plus
/// one, and the number of bytes of the data region before it.
pub open spec fn index_entry_of<C: BlockCodec>(blocks: Seq<Seq<Seq<u8>>>, j: int) -> (u64, u64) {
    (
        (documents_of(blocks.take(j)).len() + 1) as u64,
        data_region_of::<C>(blocks.take(j)).len() as u64,
    )
}

/// The index entries of a store, one for each block.
pub open spec fn index_entries_of<C: BlockCodec>(blocks: Seq<Seq<Seq<u8>>>) -> Seq<(u64, u64)> {
    Seq::new(blocks.len(), |j: int| index_entry_of::<C>(blocks, j))
}

/// Index entries one after the other: a variable-length key, then an
/// eight-byte offset.
pub open spec fn entries_bytes(entries: Seq<(u64, u64)>) -> Seq<u8>
    decreases entries.len(),
{
    if entries.len() == 0 {
        Seq::empty()
    } else {
        vint_bytes(entries[0].0 as nat) + u64_le_bytes(entries[0].1) + entries_bytes(
            entries.skip(1),
        )
    }
}

/// The index region: the number of entries, then the entries.
pub open spec fn index_region_of(entries: Seq<(u64, u64)>) -> Seq<u8> {
    vint_bytes(entries.len()) + entries_bytes(entries)
}

/// The footer: the length of the data region, then the number of documents.
pub open spec fn footer_bytes(data_len: u64, max_doc: DocId) -> Seq<u8> {
    u64_le_bytes(data_len) + u32_le_bytes(max_doc)
}

/// The bytes of the store that holds these blocks.
pub open spec fn store_image<C: BlockCodec>(blocks: Seq<Seq<Seq<u8>>>) -> Seq<u8> {
    let data = data_region_of::<C>(blocks);
    data + index_region_of(index_entries_of::<C>(blocks)) + footer_bytes(
        data.len() as u64,
        documents_of(blocks).len() as DocId,
    )
}

/// Whether the store format can hold these blocks: no block is empty, the
/// stored form of each block has a length of 32 bits, each document a
/// length of 64 bits, and there are no more documents than identifiers and
/// no more bytes of data than an offset can address.
pub open spec fn storable<C: BlockCodec>(blocks: Seq<Seq<Seq<u8>>>) -> bool {
    &&& forall|j: int| 0 <= j < blocks.len() ==> (#[trigger] blocks[j]).len() >= 1
    &&& forall|j: int|
        0 <= j < blocks.len() ==> C::compressed(block_bytes(#[trigger] blocks[j])).len()
            <= u32::MAX
    &&& forall|j: int, k: int|
        0 <= j < blocks.len() && 0 <= k < blocks[j].len() ==> (#[trigger] blocks[j][k]).len()
            <= u64::MAX
    &&& documents_of(blocks).len() <= u32::MAX
    &&& data_region_of::<C>(blocks).len() <= u64::MAX
}

/// A block with one more document is the block followed by the length of
/// that document and the document.
pub proof fn lemma_block_bytes_push(docs: Seq<Seq<u8>>, doc: Seq<u8>)
    ensures
        block_bytes(docs.push(doc)) == block_bytes(docs) + vint_bytes(doc.len()) + doc,
    decreases docs.len(),
{
    let more = docs.push(doc);
    if docs.len() == 0 {
        assert(more.skip(1) =~= Seq::<Seq<u8>>::empty());
        assert(block_bytes(more.skip(1)) =~= Seq::<u8>::empty());
        assert(block_bytes(more) =~= block_bytes(docs) + vint_bytes(doc.len()) + doc);
    } else {
        lemma_block_bytes_push(docs.skip(1), doc);
        assert(more.skip(1) =~= docs.skip(1).push(doc));
        assert(block_bytes(more) =~= block_bytes(docs) + vint_bytes(doc.len()) + doc);
    }
}

/// Every document of a block is found again under its rank.
pub proof fn lemma_nth_document(docs: Seq<Seq<u8>>, k: int)
    requires
        0 <= k < docs.len(),
        forall|i: int| 0 <= i < docs.len() ==> (#[trigger] docs[i]).len() <= u64::MAX,
    ensures
        nth_document(block_bytes(docs), k as nat) == Some(docs[k]),
    decreases k,
{
    let block = block_bytes(docs);
    let head = vint_bytes(docs[0].len());
    let tail = block_bytes(docs.skip(1));
    lemma_vint_round_trip(docs[0].len(), docs[0] + tail);
    assert(block =~= head + (docs[0] + tail));
    let n = head.len();
    assert(vint_parse(block) == Some((docs[0].len() as u64, n)));
    if k == 0 {
        assert(block.subrange(n as int, (n + docs[0].len()) as int) =~= docs[0]);
    } else {
        assert(block.skip((n + docs[0].len()) as int) =~= tail);
        assert forall|i: int| 0 <= i < docs.skip(1).len() implies (#[trigger] docs.skip(
            1,
        )[i]).len() <= u64::MAX by {
            assert(docs.skip(1)[i] == docs[i + 1]);
        }
        lemma_nth_document(docs.skip(1), k - 1);
    }
}

/// Serialized entries parse back to the entries.
pub proof fn lemma_entries_round_trip(entries: Seq<(u64, u64)>)
    ensures
        parse_entries(entries_bytes(entries), entries.len()) == Some(entries),
    decreases entries.len(),
{
    if entries.len() == 0 {
        assert(entries =~= Seq::<(u64, u64)>::empty());
    } else {
        let bytes = entries_bytes(entries);
        let key = vint_bytes(entries[0].0 as nat);
        let offset = u64_le_bytes(entries[0].1);
        let tail = entries_bytes(entries.skip(1));
        lemma_vint_round_trip(entries[0].0 as nat, offset + tail);
        lemma_u64_le_round_trip(entries[0].1);
        lemma_entries_round_trip(entries.skip(1));
        assert(bytes =~= key + (offset + tail));
        let n = key.len();
        assert(vint_parse(bytes) == Some((entries[0].0, n)));
        assert(bytes.subrange(n as int, n as int + 8) =~= offset);
        assert(bytes.skip(n as int + 8) =~= tail);
        assert(seq![entries[0]] + entries.skip(1) =~= entries);
    }
}

/// A serialized index with strictly increasing keys parses back to its
/// entries.
pub proof fn lemma_index_round_trip(entries: Seq<(u64, u64)>)
    requires
        strictly_increasing(entries),
        entries.len() <= u64::MAX,
    ensures
        parse_block_index(index_region_of(entries)) == Some(entries),
{
    let count = vint_bytes(entries.len());
    lemma_vint_round_trip(entries.len(), entries_bytes(entries));
    lemma_entries_round_trip(entries);
    assert(index_region_of(entries).skip(count.len() as int) =~= entries_bytes(entries));
}

/// The blocks before `j + 1` are the blocks before `j` and the block `j`.
pub proof fn lemma_take_step<C: BlockCodec>(blocks: Seq<Seq<Seq<u8>>>, j: int)
    requires
        0 <= j < blocks.len(),
    ensures
        documents_of(blocks.take(j + 1)) == documents_of(blocks.take(j)) + blocks[j],
        data_region_of::<C>(blocks.take(j + 1)) == data_region_of::<C>(blocks.take(j))
            + stored_block::<C>(blocks[j]),
{
    assert(blocks.take(j + 1).drop_last() =~= blocks.take(j));
    assert(blocks.take(j + 1).last() == blocks[j]);
}

/// What comes before an earlier block also comes before a later one: the
/// documents and the data before `j` are a prefix of those before `m`.
pub proof fn lemma_take_prefix<C: BlockCodec>(blocks: Seq<Seq<Seq<u8>>>, j: int, m: int)
    requires
        0 <= j <= m <= blocks.len(),
    ensures
        documents_of(blocks.take(j)).len() <= documents_of(blocks.take(m)).len(),
        documents_of(blocks.take(m)).take(documents_of(blocks.take(j)).len() as int)
            == documents_of(blocks.take(j)),
        data_region_of::<C>(blocks.take(j)).len() <= data_region_of::<C>(blocks.take(m)).len(),
        data_region_of::<C>(blocks.take(m)).take(data_region_of::<C>(blocks.take(j)).len() as int)
            == data_region_of::<C>(blocks.take(j)),
    decreases m - j,
{
    let docs_j = documents_of(blocks.take(j));
    let data_j = data_region_of::<C>(blocks.take(j));
    if j == m {
        assert(docs_j.take(docs_j.len() as int) =~= docs_j);
        assert(data_j.take(data_j.len() as int) =~= data_j);
    } else {
        lemma_take_prefix::<C>(blocks, j, m - 1);
        lemma_take_step::<C>(blocks, m - 1);
        let docs_p = documents_of(blocks.take(m - 1));
        let data_p = data_region_of::<C>(blocks.take(m - 1));
        assert((docs_p + blocks[m - 1]).take(docs_j.len() as int) =~= docs_p.take(
            docs_j.len() as int,
        ));
        assert((data_p + stored_block::<C>(blocks[m - 1])).take(data_j.len() as int)
            =~= data_p.take(data_j.len() as int));
    }
}

/// The block that holds the document `doc`.
pub open spec fn block_holding(blocks: Seq<Seq<Seq<u8>>>, doc: int) -> int
    decreases blocks.len(),
{
    if blocks.len() == 0 {
        0
    } else if doc >= documents_of(blocks.drop_last()).len() {
        blocks.len() - 1
    } else {
        block_holding(blocks.drop_last(), doc)
    }
}

/// Every document lies in a block: after the documents of the blocks before
/// it, and before those of the blocks after it.
pub proof fn lemma_block_holding(blocks: Seq<Seq<Seq<u8>>>, doc: int)
    requires
        0 <= doc < documents_of(blocks).len(),
    ensures
        0 <= block_holding(blocks, doc) < blocks.len(),
        documents_of(blocks.take(block_holding(blocks, doc))).len() <= doc,
        doc < documents_of(blocks.take(block_holding(blocks, doc) + 1)).len(),
    decreases blocks.len(),
{
    let shorter = blocks.drop_last();
    if doc >= documents_of(shorter).len() {
        assert(blocks.take(blocks.len() - 1) =~= shorter);
        assert(blocks.take(blocks.len() as int) =~= blocks);
    } else {
        lemma_block_holding(shorter, doc);
        let j = block_holding(shorter, doc);
        assert(shorter.take(j) =~= blocks.take(j));
        assert(shorter.take(j + 1) =~= blocks.take(j + 1));
    }
}

/// Where no block is empty, each block starts at a higher identifier than
/// the block before it, and there are at least as many documents before a
/// block as blocks.
pub proof fn lemma_first_docs_increase<C: BlockCodec>(blocks: Seq<Seq<Seq<u8>>>, i: int, j: int)
    requires
        forall|b: int| 0 <= b < blocks.len() ==> (#[trigger] blocks[b]).len() >= 1,
        0 <= i <= j <= blocks.len(),
    ensures
        documents_of(blocks.take(i)).len() + (j - i) <= documents_of(blocks.take(j)).len(),
    decreases j - i,
{
    if i < j {
        lemma_first_docs_increase::<C>(blocks, i, j - 1);
        lemma_take_step::<C>(blocks, j - 1);
    }
}

/// The footer of a store image gives back the two regions and the number of
/// documents.
pub proof fn lemma_image_footer<C: BlockCodec>(blocks: Seq<Seq<Seq<u8>>>)
    requires
        storable::<C>(blocks),
    ensures
        footer_of(store_image::<C>(blocks)) == Some(
            (data_region_of::<C>(blocks).len() as int, documents_of(blocks).len() as DocId),
        ),
        store_image::<C>(blocks).subrange(0, data_region_of::<C>(blocks).len() as int)
            == data_region_of::<C>(blocks),
        store_image::<C>(blocks).subrange(
            data_region_of::<C>(blocks).len() as int,
            store_image::<C>(blocks).len() - 12,
        ) == index_region_of(index_entries_of::<C>(blocks)),
{
    let data = data_region_of::<C>(blocks);
    let index = index_region_of(index_entries_of::<C>(blocks));
    let data_len = data.len() as u64;
    let max_doc = documents_of(blocks).len() as DocId;
    let store = store_image::<C>(blocks);
    lemma_u64_le_round_trip(data_len);
    lemma_u32_le_round_trip(max_doc);
    let at = store.len() - 12;
    assert(at == data.len() + index.len());
    assert(store.subrange(at, at + 8) =~= u64_le_bytes(data_len));
    assert(store.subrange(at + 8, at + 12) =~= u32_le_bytes(max_doc));
    assert(store.subrange(0, data.len() as int) =~= data);
    assert(store.subrange(data.len() as int, at) =~= index);
}

/// The index of a store image parses, and looking up a document in it gives
/// the entry of the block that holds the document.
pub proof fn lemma_image_index<C: BlockCodec>(blocks: Seq<Seq<Seq<u8>>>, doc_id: DocId)
    requires
        storable::<C>(blocks),
        doc_id < documents_of(blocks).len(),
    ensures
        parse_block_index(index_region_of(index_entries_of::<C>(blocks))) == Some(
            index_entries_of::<C>(blocks),
        ),
        floor_entry(index_entries_of::<C>(blocks), (doc_id + 1) as u64) == index_entry_of::<C>(
            blocks,
            block_holding(blocks, doc_id as int),
        ),
        index_entry_of::<C>(blocks, block_holding(blocks, doc_id as int)).0 == documents_of(
            blocks.take(block_holding(blocks, doc_id as int)),
        ).len() + 1,
        index_entry_of::<C>(blocks, block_holding(blocks, doc_id as int)).1 == data_region_of::<C>(
            blocks.take(block_holding(blocks, doc_id as int)),
        ).len(),
{
    let entries = index_entries_of::<C>(blocks);
    let whole = blocks.len() as int;
    assert(blocks.take(whole) =~= blocks);
    assert forall|i: int| 0 <= i < entries.len() implies {
        &&& (#[trigger] entries[i]).0 == documents_of(blocks.take(i)).len() + 1
        &&& entries[i].1 == data_region_of::<C>(blocks.take(i)).len()
    } by {
        lemma_take_prefix::<C>(blocks, i, whole);
    }
    assert forall|i: int, j: int| 0 <= i < j < entries.len() implies entries[i].0
        < entries[j].0 by {
        lemma_first_docs_increase::<C>(blocks, i, j);
    }
    lemma_first_docs_increase::<C>(blocks, 0, whole);
    lemma_index_round_trip(entries);
    let j = block_holding(blocks, doc_id as int);
    lemma_block_holding(blocks, doc_id as int);
    let key = (doc_id + 1) as u64;
    assert forall|i: int| 0 <= i < j + 1 implies entries[i].0 <= key by {
        lemma_first_docs_increase::<C>(blocks, i, j);
    }
    assert forall|i: int| j + 1 <= i < entries.len() implies entries[i].0 > key by {
        lemma_first_docs_increase::<C>(blocks, j + 1, i);
    }
    lemma_floor_entry_at(entries, key, j + 1);
}

/// The block `j` of a store image is found at its offset, and decompresses
/// to its documents.
pub proof fn lemma_image_block<C: BlockCodec>(blocks: Seq<Seq<Seq<u8>>>, j: int)
    requires
        storable::<C>(blocks),
        0 <= j < blocks.len(),
    ensures
        block_payload(
            data_region_of::<C>(blocks),
            data_region_of::<C>(blocks.take(j)).len() as int,
        ) == Some(C::compressed(block_bytes(blocks[j]))),
        C::decompressed(C::compressed(block_bytes(blocks[j]))) == Some(block_bytes(blocks[j])),
{
    let data = data_region_of::<C>(blocks);
    let before = data_region_of::<C>(blocks.take(j));
    let through = data_region_of::<C>(blocks.take(j + 1));
    let stored = C::compressed(block_bytes(blocks[j]));
    let whole = blocks.len() as int;
    assert(blocks.take(whole) =~= blocks);
    lemma_take_step::<C>(blocks, j);
    lemma_take_prefix::<C>(blocks, j + 1, whole);
    lemma_u32_le_round_trip(stored.len() as u32);
    C::lemma_round_trip(block_bytes(blocks[j]));
    let offset = before.len() as int;
    assert(through == before + (u32_le_bytes(stored.len() as u32) + stored));
    assert(data.take(through.len() as int) == through);
    let upto = data.take(through.len() as int);
    assert(data.subrange(offset, offset + 4) =~= upto.subrange(offset, offset + 4));
    assert(through.subrange(offset, offset + 4) =~= u32_le_bytes(stored.len() as u32));
    assert(data.subrange(offset + 4, offset + 4 + stored.len()) =~= upto.subrange(
        offset + 4,
        offset + 4 + stored.len(),
    ));
    assert(through.subrange(offset + 4, offset + 4 + stored.len()) =~= stored);
}

/// Round trip: the store that is written for a sequence of blocks holds,
/// under each identifier below the number of documents, the document of
/// that rank.
pub proof fn lemma_store_round_trip<C: BlockCodec>(blocks: Seq<Seq<Seq<u8>>>, doc_id: DocId)
    requires
        storable::<C>(blocks),
        doc_id < documents_of(blocks).len(),
    ensures
        store_document::<C>(store_image::<C>(blocks), doc_id) == Ok::<Seq<u8>, StoreError>(
            documents_of(blocks)[doc_id as int],
        ),
{
    let j = block_holding(blocks, doc_id as int);
    let whole = blocks.len() as int;
    lemma_image_footer::<C>(blocks);
    lemma_image_index::<C>(blocks, doc_id);
    lemma_block_holding(blocks, doc_id as int);
    lemma_image_block::<C>(blocks, j);
    lemma_take_step::<C>(blocks, j);
    let first = documents_of(blocks.take(j)).len() as int;
    lemma_nth_document(blocks[j], doc_id - first);
    assert(blocks.take(whole) =~= blocks);
    lemma_take_prefix::<C>(blocks, j + 1, whole);
    let through = documents_of(blocks.take(j + 1));
    assert(documents_of(blocks)[doc_id as int] == documents_of(blocks).take(
        through.len() as int,
    )[doc_id as int]);
    assert(through[doc_id as int] == blocks[j][doc_id - first]);
}

} // verus!
