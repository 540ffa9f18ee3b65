//! Writing a store: documents are gathered into blocks, and closing the
//! writer gives the bytes of the store.

use crate::common::encode_u32;
use crate::common::encode_u64;
use crate::common::encode_vint;
use crate::error::DocId;
use crate::store::codec::append_bytes;
use crate::store::codec::BlockCodec;
use crate::store::layout::block_bytes;
use crate::store::layout::data_region_of;
use crate::store::layout::documents_of;
use crate::store::layout::entries_bytes;
use crate::store::layout::index_entries_of;
use crate::store::layout::index_region_of;
use crate::store::layout::lemma_block_bytes_push;
use crate::store::layout::storable;
use crate::store::layout::store_image;
use vstd::prelude::*;

verus! {

/// Builds the bytes of a store in memory.
///
/// Documents get their identifiers in the order in which they are stored.
/// They gather in an open block until `end_block` closes it; `close` closes
/// the last block and gives the store.
pub struct StoreWriter<C: BlockCodec> {
    codec: C,
    data: Vec<u8>,
    entries: Vec<(u64, u64)>,
    block: Vec<u8>,
    block_docs: DocId,
    doc: DocId,
    closed: Ghost<Seq<Seq<Seq<u8>>>>,
    open: Ghost<Seq<Seq<u8>>>,
}

impl<C: BlockCodec> StoreWriter<C> {
    /// The blocks that are closed, with their documents.
    pub closed spec fn blocks(&self) -> Seq<Seq<Seq<u8>>> {
        self.closed@
    }

    /// The documents of the open block.
    pub closed spec fn pending(&self) -> Seq<Seq<u8>> {
        self.open@
    }

    /// The blocks of the store that closing the writer now would give.
    pub open spec fn all_blocks(&self) -> Seq<Seq<Seq<u8>>> {
        if self.pending().len() == 0 {
            self.blocks()
        } else {
            self.blocks().push(self.pending())
        }
    }

    /// The number of documents stored so far.
    pub open spec fn doc_count(&self) -> nat {
        documents_of(self.blocks()).len() + self.pending().len()
    }

    /// The buffers hold what the closed blocks and the open block say, and
    /// the closed blocks fit the format.
    pub closed spec fn wf(&self) -> bool {
        &&& storable::<C>(self.closed@)
        &&& self.data@ == data_region_of::<C>(self.closed@)
        &&& self.entries@ == index_entries_of::<C>(self.closed@)
        &&& self.doc == documents_of(self.closed@).len()
        &&& self.block@ == block_bytes(self.open@)
        &&& self.block_docs == self.open@.len()
        &&& self.doc + self.block_docs <= u32::MAX
        &&& forall|k: int| 0 <= k < self.open@.len() ==> (#[trigger] self.open@[k]).len() <= u64::MAX
    }

    /// A writer that holds no document yet.
    pub fn new(codec: C) -> (r: StoreWriter<C>)
        ensures
            r.wf(),
            r.blocks() == Seq::<Seq<Seq<u8>>>::empty(),
            r.pending() == Seq::<Seq<u8>>::empty(),
    {
        let r = StoreWriter {
            codec,
            data: Vec::new(),
            entries: Vec::new(),
            block: Vec::new(),
            block_docs: 0,
            doc: 0,
            closed: Ghost(Seq::empty()),
            open: Ghost(Seq::empty()),
        };
        assert(r.entries@ =~= index_entries_of::<C>(r.closed@));
        r
    }

    /// Adds a document to the open block; its identifier is the number of
    /// documents stored before it. Refuses, and changes nothing, where every
    /// identifier is taken.
    pub fn store(&mut self, document: &[u8]) -> (stored: bool)
        requires
            old(self).wf(),
        ensures
            final(self).wf(),
            final(self).blocks() == old(self).blocks(),
            stored <==> old(self).doc_count() < u32::MAX,
            stored ==> final(self).pending() == old(self).pending().push(document@),
            !stored ==> final(self).pending() == old(self).pending(),
    {
        if self.block_docs >= u32::MAX - self.doc {
            return false;
        }
        proof {
            vstd::slice::axiom_spec_len(document);
            lemma_block_bytes_push(self.open@, document@);
        }
        encode_vint(document.len() as u64, &mut self.block);
        append_bytes(&mut self.block, document);
        self.block_docs = self.block_docs + 1;
        proof {
            self.open@ = self.open@.push(document@);
        }
        true
    }

    /// Closes the open block, if it holds a document: its stored form goes to
    /// the data region and gets an index entry. Refuses, and changes
    /// nothing, where the stored form is longer than 32 bits can say.
    pub fn end_block(&mut self) -> (ended: bool)
        requires
            old(self).wf(),
        ensures
            final(self).wf(),
            ended <==> (old(self).pending().len() == 0 || C::compressed(
                block_bytes(old(self).pending()),
            ).len() <= u32::MAX),
            ended ==> final(self).blocks() == old(self).all_blocks() && final(self).pending()
                == Seq::<Seq<u8>>::empty(),
            !ended ==> final(self).blocks() == old(self).blocks() && final(self).pending() == old(
                self,
            ).pending(),
    {
        if self.block_docs == 0 {
            assert(self.open@ =~= Seq::<Seq<u8>>::empty());
            return true;
        }
        let mut stored: Vec<u8> = Vec::new();
        self.codec.compress(self.block.as_slice(), &mut stored);
        if stored.len() > u32::MAX as usize {
            return false;
        }
        let ghost before = self.closed@;
        let ghost after = before.push(self.open@);
        proof {
            assert(after.drop_last() =~= before);
            assert forall|j: int| 0 <= j <= before.len() implies #[trigger] after.take(j)
                == before.take(j) by {
                assert(after.take(j) =~= before.take(j));
            }
            assert(before.take(before.len() as int) =~= before);
            assert(index_entries_of::<C>(after) =~= index_entries_of::<C>(before).push(
                ((self.doc + 1) as u64, self.data@.len() as u64),
            ));
        }
        self.entries.push((self.doc as u64 + 1, self.data.len() as u64));
        encode_u32(stored.len() as u32, &mut self.data);
        append_bytes(&mut self.data, stored.as_slice());
        self.doc = self.doc + self.block_docs;
        self.block_docs = 0;
        self.block.clear();
        proof {
            vstd::std_specs::vec::axiom_spec_len(&self.data);
            self.closed@ = after;
            self.open@ = Seq::empty();
            assert(self.data@ =~= data_region_of::<C>(after));
            assert(self.entries@ == index_entries_of::<C>(after));
            assert(documents_of(after) == documents_of(before) + old(self).open@);
            assert(self.doc == documents_of(after).len());
            assert(self.block@ =~= block_bytes(self.open@));
            assert forall|j: int| 0 <= j < after.len() implies (#[trigger] after[j]).len()
                >= 1 by {
                if j < before.len() {
                    assert(after[j] == before[j]);
                }
            }
            assert forall|j: int| 0 <= j < after.len() implies C::compressed(
                block_bytes(#[trigger] after[j]),
            ).len() <= u32::MAX by {
                if j < before.len() {
                    assert(after[j] == before[j]);
                }
            }
            assert forall|j: int, k: int|
                0 <= j < after.len() && 0 <= k < after[j].len() implies (#[trigger] after[j][k]).len()
                <= u64::MAX by {
                if j < before.len() {
                    assert(after[j] == before[j]);
                }
            }
            assert(documents_of(after).len() <= u32::MAX);
            assert(data_region_of::<C>(after).len() <= u64::MAX);
            assert(storable::<C>(after));
        }
        true
    }

    /// Closes the open block and gives the bytes of the store: the data
    /// region, the index region and the footer. `None` where the open block
    /// cannot be closed.
    pub fn close(self) -> (r: Option<Vec<u8>>)
        requires
            self.wf(),
        ensures
            match r {
                Some(bytes) => storable::<C>(self.all_blocks()) && bytes@ == store_image::<C>(
                    self.all_blocks(),
                ),
                None => self.pending().len() > 0 && C::compressed(
                    block_bytes(self.pending()),
                ).len() > u32::MAX,
            },
    {
        let mut writer = self;
        if !writer.end_block() {
            return None;
        }
        let ghost blocks = writer.closed@;
        let entries = writer.entries;
        let max_doc = writer.doc;
        let mut out = writer.data;
        let data_len = out.len();
        encode_vint(entries.len() as u64, &mut out);
        let mut i: usize = 0;
        assert(entries@.skip(0) =~= entries@);
        while i < entries.len()
            invariant
                i <= entries@.len(),
                out@ + entries_bytes(entries@.skip(i as int)) == data_region_of::<C>(blocks)
                    + index_region_of(entries@),
            decreases entries@.len() - i,
        {
            let ghost rest = entries@.skip(i as int);
            let ghost done = out@;
            let (key, offset) = entries[i];
            encode_vint(key, &mut out);
            encode_u64(offset, &mut out);
            i = i + 1;
            proof {
                assert(rest.skip(1) =~= entries@.skip(i as int));
                assert(out@ + entries_bytes(entries@.skip(i as int)) =~= done + entries_bytes(
                    rest,
                ));
            }
        }
        assert(entries_bytes(entries@.skip(i as int)) =~= Seq::<u8>::empty());
        assert(out@ =~= data_region_of::<C>(blocks) + index_region_of(entries@));
        encode_u64(data_len as u64, &mut out);
        encode_u32(max_doc, &mut out);
        assert(out@ =~= store_image::<C>(blocks));
        Some(out)
    }
}

} // verus!
