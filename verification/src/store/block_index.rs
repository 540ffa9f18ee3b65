//! The block index: an ordered table from keys to byte offsets, read once
//! from its serialized form and searched by floor lookup.

use crate::common::deserialize_u64;
use crate::common::deserialize_vint;
use crate::common::lemma_le_bounds;
use crate::common::u64_le;
use crate::common::vint_parse;
use crate::directory::AdvancingReadOnlySource;
use crate::error::StoreError;
use vstd::prelude::*;

verus! {

/// The keys grow strictly from each entry to the next.
pub open spec fn strictly_increasing(entries: Seq<(u64, u64)>) -> bool {
    forall|i: int, j: int| 0 <= i < j < entries.len() ==> entries[i].0 < entries[j].0
}

/// `count` entries, each a variable-length key followed by an eight-byte
/// little-endian offset, that fill `bytes` exactly.
pub open spec fn parse_entries(bytes: Seq<u8>, count: nat) -> Option<Seq<(u64, u64)>>
    decreases count,
{
    if count == 0 {
        if bytes.len() == 0 {
            Some(Seq::empty())
        } else {
            None
        }
    } else {
        match vint_parse(bytes) {
            None => None,
            Some((key, n)) => if bytes.len() < n + 8 {
                None
            } else {
                match parse_entries(bytes.skip(n as int + 8), (count - 1) as nat) {
                    None => None,
                    Some(rest) => Some(
                        seq![(key, u64_le(bytes.subrange(n as int, n as int + 8)) as u64)] + rest,
                    ),
                }
            },
        }
    }
}

/// The entries that a serialized block index holds: a variable-length count,
/// then that many entries with strictly increasing keys, and nothing after
/// them. `None` for bytes that are not such an index.
pub open spec fn parse_block_index(region: Seq<u8>) -> Option<Seq<(u64, u64)>> {
    match vint_parse(region) {
        None => None,
        Some((count, n)) => match parse_entries(region.skip(n as int), count as nat) {
            None => None,
            Some(entries) => if strictly_increasing(entries) {
                Some(entries)
            } else {
                None
            },
        },
    }
}

/// The last entry whose key is at most `key`, or `(0, 0)` where there is
/// none. On strictly increasing entries that is the entry with the greatest
/// such key.
pub open spec fn floor_entry(entries: Seq<(u64, u64)>, key: u64) -> (u64, u64)
    decreases entries.len(),
{
    if entries.len() == 0 {
        (0u64, 0u64)
    } else if entries.last().0 <= key {
        entries.last()
    } else {
        floor_entry(entries.drop_last(), key)
    }
}

/// Where `cut` parts the entries with keys at most `key` from those above it,
/// the floor entry is the one just before `cut`.
pub proof fn lemma_floor_entry_at(entries: Seq<(u64, u64)>, key: u64, cut: int)
    requires
        0 <= cut <= entries.len(),
        forall|i: int| 0 <= i < cut ==> entries[i].0 <= key,
        forall|i: int| cut <= i < entries.len() ==> entries[i].0 > key,
    ensures
        floor_entry(entries, key) == if cut == 0 {
            (0u64, 0u64)
        } else {
            entries[cut - 1]
        },
    decreases entries.len(),
{
    if entries.len() > 0 && cut < entries.len() {
        lemma_floor_entry_at(entries.drop_last(), key, cut);
    }
}

/// Floor lookup is what its name says: on strictly increasing entries the
/// result is an entry whose key is at most `key` and at least every other
/// such key, and it is `(0, 0)` exactly where every key is above `key` (or
/// there is no entry at all).
pub proof fn lemma_floor_entry_is_greatest(entries: Seq<(u64, u64)>, key: u64)
    requires
        strictly_increasing(entries),
    ensures
        (forall|i: int| 0 <= i < entries.len() ==> entries[i].0 > key) ==> floor_entry(
            entries,
            key,
        ) == (0u64, 0u64),
        (exists|i: int| 0 <= i < entries.len() && entries[i].0 <= key) ==> {
            let found = floor_entry(entries, key);
            &&& exists|j: int| 0 <= j < entries.len() && entries[j] == found
            &&& found.0 <= key
            &&& forall|i: int|
                0 <= i < entries.len() && entries[i].0 <= key ==> entries[i].0 <= found.0
        },
    decreases entries.len(),
{
    if entries.len() > 0 {
        let last = entries.len() - 1;
        if entries.last().0 <= key {
            assert(entries[last] == floor_entry(entries, key));
        } else {
            let shorter = entries.drop_last();
            lemma_floor_entry_is_greatest(shorter, key);
            if exists|i: int| 0 <= i < entries.len() && entries[i].0 <= key {
                let i = choose|i: int| 0 <= i < entries.len() && entries[i].0 <= key;
                assert(shorter[i].0 <= key);
                let found = floor_entry(shorter, key);
                let j = choose|j: int| 0 <= j < shorter.len() && shorter[j] == found;
                assert(entries[j] == found);
                assert forall|k: int|
                    0 <= k < entries.len() && entries[k].0 <= key implies entries[k].0
                    <= found.0 by {
                    assert(shorter[k].0 <= key);
                }
            } else {
                assert forall|i: int| 0 <= i < entries.len() implies entries[i].0 > key by {}
            }
        }
    }
}

/// An ordered table from keys to byte offsets.
pub struct BlockIndex {
    entries: Vec<(u64, u64)>,
}

impl View for BlockIndex {
    type V = Seq<(u64, u64)>;

    /// The entries, in key order.
    closed spec fn view(&self) -> Seq<(u64, u64)> {
        self.entries@
    }
}

impl BlockIndex {
    pub open spec fn wf(&self) -> bool {
        strictly_increasing(self@)
    }

    /// Reads a whole serialized index. Succeeds exactly on the bytes that
    /// `parse_block_index` accepts.
    pub fn from_source(source: AdvancingReadOnlySource) -> (r: Result<BlockIndex, StoreError>)
        requires
            source.wf(),
        ensures
            match r {
                Ok(index) => index.wf() && parse_block_index(source@) == Some(index@),
                Err(e) => e == StoreError::FormatCorruption && parse_block_index(source@) is None,
            },
    {
        let mut cursor = source;
                let count = match deserialize_vint(&mut cursor) {
            Ok(count) => count,
            Err(e) => {
                return Err(e);
            },
        };
        let ghost body = cursor@;
        let mut entries: Vec<(u64, u64)> = Vec::new();
        let mut i: u64 = 0;
        while i < count
            invariant
                cursor.wf(),
                i <= count,
                parse_block_index(source@) == match parse_entries(body, count as nat) {
                    Some(all) => if strictly_increasing(all) {
                        Some(all)
                    } else {
                        None
                    },
                    None => None,
                },
                i == entries@.len(),
                strictly_increasing(entries@),
                parse_entries(body, count as nat) == match parse_entries(
                    cursor@,
                    (count - i) as nat,
                ) {
                    Some(rest) => Some(entries@ + rest),
                    None => None,
                },
            decreases count - i,
        {
            let ghost before = cursor@;
            let ghost done = entries@;
            let key = match deserialize_vint(&mut cursor) {
                Ok(key) => key,
                Err(e) => {
                    assert(parse_entries(before, (count - i) as nat) is None);
                    return Err(e);
                },
            };
            let ghost n = vint_parse(before).unwrap().1;
            let ghost mid = cursor@;
            let offset = match deserialize_u64(&mut cursor) {
                Ok(offset) => offset,
                Err(e) => {
                    assert(mid.len() == before.len() - n);
                    assert(parse_entries(before, (count - i) as nat) is None);
                    return Err(e);
                },
            };
            proof {
                assert(mid.take(8) =~= before.subrange(n as int, n as int + 8));
                assert(cursor@ =~= before.skip(n as int + 8));
                lemma_le_bounds(mid.take(8));
                if let Some(rest) = parse_entries(cursor@, (count - i - 1) as nat) {
                    assert(done + (seq![(key, offset)] + rest) =~= done.push((key, offset)) + rest);
                }
            }
            if entries.len() > 0 && entries[entries.len() - 1].0 >= key {
                proof {
                    if let Some(rest) = parse_entries(cursor@, (count - i - 1) as nat) {
                        let all = done.push((key, offset)) + rest;
                        assert(all[done.len() - 1] == done[done.len() - 1]);
                        assert(all[done.len() as int] == (key, offset));
                        assert(!strictly_increasing(all));
                    }
                }
                return Err(StoreError::FormatCorruption);
            }
            entries.push((key, offset));
            i = i + 1;
        }
        if !cursor.is_empty() {
            return Err(StoreError::FormatCorruption);
        }
        assert(entries@ + Seq::<(u64, u64)>::empty() =~= entries@);
        Ok(BlockIndex { entries })
    }

    /// The number of entries.
    pub fn len(&self) -> (n: usize)
        ensures
            n == self@.len(),
    {
        self.entries.len()
    }

    /// Floor lookup: the entry with the greatest key that is at most `key`,
    /// or `(0, 0)` where no key is.
    pub fn seek(&self, key: u64) -> (r: (u64, u64))
        requires
            self.wf(),
        ensures
            r == floor_entry(self@, key),
            (forall|i: int| 0 <= i < self@.len() ==> self@[i].0 > key) ==> r == (0u64, 0u64),
            (exists|i: int| 0 <= i < self@.len() && self@[i].0 <= key) ==> {
                &&& exists|j: int| 0 <= j < self@.len() && self@[j] == r
                &&& r.0 <= key
                &&& forall|i: int| 0 <= i < self@.len() && self@[i].0 <= key ==> self@[i].0 <= r.0
            },
    {
        let mut lo: usize = 0;
        let mut hi: usize = self.entries.len();
        while lo < hi
            invariant
                lo <= hi <= self.entries@.len(),
                strictly_increasing(self.entries@),
                forall|i: int| 0 <= i < lo ==> self.entries@[i].0 <= key,
                forall|i: int| hi <= i < self.entries@.len() ==> self.entries@[i].0 > key,
            decreases hi - lo,
        {
            let mid = lo + (hi - lo) / 2;
            if self.entries[mid].0 <= key {
                lo = mid + 1;
            } else {
                hi = mid;
            }
        }
        proof {
            lemma_floor_entry_at(self@, key, lo as int);
            lemma_floor_entry_is_greatest(self@, key);
        }
        if lo == 0 {
            (0, 0)
        } else {
            self.entries[lo - 1]
        }
    }
}

} // verus!
