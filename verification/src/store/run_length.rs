//! A run-length codec: a block is stored as its runs of equal bytes.

use crate::error::StoreError;
use crate::store::codec::BlockCodec;
use vstd::prelude::*;

verus! {

/// The length of the run of equal bytes at the front of `block`, counted up
/// to 255.
pub open spec fn run_length(block: Seq<u8>) -> nat
    decreases block.len(),
{
    if block.len() <= 1 {
        block.len()
    } else if block[1] != block[0] {
        1
    } else {
        let longer = 1 + run_length(block.skip(1));
        if longer > 255 {
            255
        } else {
            longer
        }
    }
}

/// A run is at least one byte of a block that has one, at most 255 bytes,
/// and lies in the block; its bytes are equal.
pub proof fn lemma_run_length_bounds(block: Seq<u8>)
    ensures
        run_length(block) <= 255,
        run_length(block) <= block.len(),
        block.len() > 0 ==> run_length(block) >= 1,
        forall|k: int| 0 <= k < run_length(block) ==> #[trigger] block[k] == block[0],
    decreases block.len(),
{
    if block.len() > 1 && block[1] == block[0] {
        let rest = block.skip(1);
        lemma_run_length_bounds(rest);
        assert forall|k: int| 0 <= k < run_length(block) implies #[trigger] block[k] == block[0] by {
            if k > 0 {
                assert(rest[k - 1] == rest[0]);
            }
        }
    }
}

/// A run is at least as long as any stretch of equal bytes at the front
/// that is no longer than 255.
pub proof fn lemma_run_length_at_least(block: Seq<u8>, n: int)
    requires
        1 <= n <= 255,
        n <= block.len(),
        forall|k: int| 0 <= k < n ==> #[trigger] block[k] == block[0],
    ensures
        run_length(block) >= n,
    decreases n,
{
    if n >= 2 {
        let rest = block.skip(1);
        assert(block[1] == block[0]);
        assert forall|k: int| 0 <= k < n - 1 implies #[trigger] rest[k] == rest[0] by {
            assert(rest[k] == block[k + 1]);
        }
        lemma_run_length_at_least(rest, n - 1);
    }
}

/// A run ends where the block ends or another byte follows.
pub proof fn lemma_run_length_at_most(block: Seq<u8>, n: int)
    requires
        1 <= n <= block.len(),
        forall|k: int| 0 <= k < n ==> #[trigger] block[k] == block[0],
        n == block.len() || block[n] != block[0],
    ensures
        run_length(block) <= n,
    decreases n,
{
    if block.len() > 1 && block[1] == block[0] {
        let rest = block.skip(1);
        assert(n >= 2);
        assert forall|k: int| 0 <= k < n - 1 implies #[trigger] rest[k] == rest[0] by {
            assert(rest[k] == block[k + 1]);
        }
        if n < block.len() {
            assert(rest[n - 1] == block[n]);
        }
        lemma_run_length_at_most(rest, n - 1);
    }
}

/// The stored form of a block: for each run, its length and its byte.
pub open spec fn run_length_encoded(block: Seq<u8>) -> Seq<u8>
    decreases block.len(),
{
    if block.len() == 0 {
        Seq::empty()
    } else {
        proof {
            lemma_run_length_bounds(block);
        }
        seq![run_length(block) as u8, block[0]] + run_length_encoded(
            block.skip(run_length(block) as int),
        )
    }
}

/// The block that pairs of a length and a byte stand for. `None` where a
/// byte is left over or a length is zero.
pub open spec fn run_length_decoded(stored: Seq<u8>) -> Option<Seq<u8>>
    decreases stored.len(),
{
    if stored.len() == 0 {
        Some(Seq::empty())
    } else if stored.len() == 1 || stored[0] == 0 {
        None
    } else {
        match run_length_decoded(stored.skip(2)) {
            None => None,
            Some(rest) => Some(Seq::new(stored[0] as nat, |k: int| stored[1]) + rest),
        }
    }
}

/// Decoding the stored form of a block gives the block back.
pub proof fn lemma_run_length_round_trip(block: Seq<u8>)
    ensures
        run_length_decoded(run_length_encoded(block)) == Some(block),
    decreases block.len(),
{
    if block.len() > 0 {
        lemma_run_length_bounds(block);
        let n = run_length(block);
        let rest = block.skip(n as int);
        let stored = run_length_encoded(block);
        lemma_run_length_round_trip(rest);
        assert(stored.skip(2) =~= run_length_encoded(rest));
        assert(Seq::new(n, |k: int| block[0]) + rest =~= block);
    }
}

/// The codec that stores a block as its runs of equal bytes.
#[derive(Clone, Copy, Debug)]
pub struct RunLength;

impl BlockCodec for RunLength {
    open spec fn compressed(block: Seq<u8>) -> Seq<u8> {
        run_length_encoded(block)
    }

    open spec fn decompressed(stored: Seq<u8>) -> Option<Seq<u8>> {
        run_length_decoded(stored)
    }

    proof fn lemma_round_trip(block: Seq<u8>) {
        lemma_run_length_round_trip(block);
    }

    fn compress(&self, block: &[u8], out: &mut Vec<u8>) {
        out.clear();
        let mut i: usize = 0;
        assert(block@.skip(0) =~= block@);
        assert(out@ + run_length_encoded(block@) =~= run_length_encoded(block@));
        while i < block.len()
            invariant
                i <= block@.len(),
                out@ + run_length_encoded(block@.skip(i as int)) == run_length_encoded(block@),
            decreases block@.len() - i,
        {
            let ghost rest = block@.skip(i as int);
            let ghost done = out@;
            let byte = block[i];
            let mut n: usize = 1;
            while n < 255 && n < block.len() - i && block[i + n] == byte
                invariant
                    i < block@.len(),
                    1 <= n <= 255,
                    n <= block@.len() - i,
                    rest == block@.skip(i as int),
                    byte == rest[0],
                    forall|k: int| 0 <= k < n ==> #[trigger] rest[k] == byte,
                decreases 255 - n,
            {
                n = n + 1;
            }
            proof {
                lemma_run_length_bounds(rest);
                lemma_run_length_at_least(rest, n as int);
                if n < 255 {
                    lemma_run_length_at_most(rest, n as int);
                }
                assert(run_length(rest) == n);
                assert(rest.skip(n as int) =~= block@.skip(i + n));
            }
            out.push(n as u8);
            out.push(byte);
            i = i + n;
            assert(out@ + run_length_encoded(block@.skip(i as int)) =~= done
                + run_length_encoded(rest));
        }
        assert(run_length_encoded(block@.skip(i as int)) =~= Seq::<u8>::empty());
        assert(out@ =~= run_length_encoded(block@));
    }

    fn decompress(&self, stored: &[u8], out: &mut Vec<u8>) -> (r: Result<(), StoreError>) {
        out.clear();
        let mut i: usize = 0;
        assert(stored@.skip(0) =~= stored@);
        while i < stored.len()
            invariant
                i <= stored@.len(),
                run_length_decoded(stored@) == match run_length_decoded(stored@.skip(i as int)) {
                    Some(rest) => Some(out@ + rest),
                    None => None,
                },
            decreases stored@.len() - i,
        {
            let ghost tail = stored@.skip(i as int);
            let ghost done = out@;
            if stored.len() - i == 1 {
                return Err(StoreError::CodecFailure);
            }
            let count = stored[i];
            let byte = stored[i + 1];
            if count == 0 {
                return Err(StoreError::CodecFailure);
            }
            let mut k: u8 = 0;
            while k < count
                invariant
                    k <= count,
                    out@ == done + Seq::new(k as nat, |j: int| byte),
                decreases count - k,
            {
                out.push(byte);
                k = k + 1;
                assert(out@ =~= done + Seq::new(k as nat, |j: int| byte));
            }
            i = i + 2;
            proof {
                assert(tail.skip(2) =~= stored@.skip(i as int));
                if let Some(rest) = run_length_decoded(tail.skip(2)) {
                    assert(done + (Seq::new(count as nat, |j: int| byte) + rest) =~= out@ + rest);
                }
            }
        }
        assert(out@ + Seq::<u8>::empty() =~= out@);
        Ok(())
    }
}

} // verus!
