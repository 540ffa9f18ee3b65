//! The integer encodings of the store format: fixed-width little-endian
//! integers and variable-length integers.

use crate::directory::AdvancingReadOnlySource;
use crate::error::StoreError;
use vstd::prelude::*;

verus! {

/// The number that four bytes stand for, least significant byte first.
pub open spec fn u32_le(b: Seq<u8>) -> int
    recommends
        b.len() == 4,
{
    b[0] as int + 256 * (b[1] as int) + 65536 * (b[2] as int) + 16777216 * (b[3] as int)
}

/// The number that eight bytes stand for, least significant byte first.
pub open spec fn u64_le(b: Seq<u8>) -> int
    recommends
        b.len() == 8,
{
    u32_le(b.subrange(0, 4)) + 4294967296 * u32_le(b.subrange(4, 8))
}

/// The four bytes of `v`, least significant byte first.
pub open spec fn u32_le_bytes(v: u32) -> Seq<u8> {
    seq![
        (v % 256) as u8,
        (v / 256 % 256) as u8,
        (v / 65536 % 256) as u8,
        (v / 16777216) as u8,
    ]
}

/// The eight bytes of `v`, least significant byte first.
pub open spec fn u64_le_bytes(v: u64) -> Seq<u8> {
    u32_le_bytes((v % 4294967296) as u32) + u32_le_bytes((v / 4294967296) as u32)
}

/// Reading a variable-length integer off the front of `bytes`: each byte
/// carries seven bits, low groups first, and the byte that ends the integer
/// has its high bit set. Gives the value and the number of bytes it took, or
/// `None` where the bytes end before the integer does.
pub open spec fn vint_scan(bytes: Seq<u8>) -> Option<(nat, nat)>
    decreases bytes.len(),
{
    if bytes.len() == 0 {
        None
    } else if bytes[0] >= 128 {
        Some(((bytes[0] - 128) as nat, 1nat))
    } else {
        match vint_scan(bytes.skip(1)) {
            Some((v, n)) => Some((bytes[0] as nat + 128 * v, n + 1)),
            None => None,
        }
    }
}

/// A variable-length integer at the front of `bytes` that fits 64 bits: its
/// value and its length in bytes.
pub open spec fn vint_parse(bytes: Seq<u8>) -> Option<(u64, nat)> {
    match vint_scan(bytes) {
        Some((v, n)) => if v <= u64::MAX {
            Some((v as u64, n))
        } else {
            None
        },
        None => None,
    }
}

/// The variable-length encoding of `v`.
pub open spec fn vint_bytes(v: nat) -> Seq<u8>
    decreases v,
{
    if v < 128 {
        seq![(v + 128) as u8]
    } else {
        seq![(v % 128) as u8] + vint_bytes(v / 128)
    }
}

/// Four bytes decode to the number they were encoded from.
pub proof fn lemma_u32_le_round_trip(v: u32)
    ensures
        u32_le_bytes(v).len() == 4,
        u32_le(u32_le_bytes(v)) == v,
{
}

/// Eight bytes decode to the number they were encoded from.
pub proof fn lemma_u64_le_round_trip(v: u64)
    ensures
        u64_le_bytes(v).len() == 8,
        u64_le(u64_le_bytes(v)) == v,
{
    let lo = (v % 4294967296) as u32;
    let hi = (v / 4294967296) as u32;
    lemma_u32_le_round_trip(lo);
    lemma_u32_le_round_trip(hi);
    assert(u64_le_bytes(v).subrange(0, 4) =~= u32_le_bytes(lo));
    assert(u64_le_bytes(v).subrange(4, 8) =~= u32_le_bytes(hi));
}

/// A variable-length integer has at least one byte and is at least what its
/// first byte carries.
pub proof fn lemma_vint_scan_bounds(bytes: Seq<u8>)
    ensures
        vint_scan(bytes) matches Some((v, n)) ==> 1 <= n <= bytes.len() && v >= bytes[0] % 128,
    decreases bytes.len(),
{
    if bytes.len() > 0 && bytes[0] < 128 {
        lemma_vint_scan_bounds(bytes.skip(1));
    }
}

/// An encoded integer is read back whatever follows it.
pub proof fn lemma_vint_round_trip(v: nat, rest: Seq<u8>)
    ensures
        vint_bytes(v).len() >= 1,
        vint_scan(vint_bytes(v) + rest) == Some((v, vint_bytes(v).len())),
    decreases v,
{
    if v >= 128 {
        lemma_vint_round_trip(v / 128, rest);
        assert((vint_bytes(v) + rest).skip(1) =~= vint_bytes(v / 128) + rest);
    }
}

/// Decodes four little-endian bytes at `pos`.
pub fn decode_u32(bytes: &[u8], pos: usize) -> (v: u32)
    requires
        pos + 4 <= bytes@.len(),
    ensures
        v == u32_le(bytes@.subrange(pos as int, pos + 4)),
{
    let b0: u32 = bytes[pos] as u32;
    let b1: u32 = bytes[pos + 1] as u32;
    let b2: u32 = bytes[pos + 2] as u32;
    let b3: u32 = bytes[pos + 3] as u32;
    b0 + 256 * b1 + 65536 * b2 + 16777216 * b3
}

/// Decodes eight little-endian bytes at `pos`.
pub fn decode_u64(bytes: &[u8], pos: usize) -> (v: u64)
    requires
        pos + 8 <= bytes@.len(),
    ensures
        v == u64_le(bytes@.subrange(pos as int, pos + 8)),
{
    proof {
        vstd::slice::axiom_spec_len(bytes);
    }
    let lo: u64 = decode_u32(bytes, pos) as u64;
    let hi: u64 = decode_u32(bytes, pos + 4) as u64;
    proof {
        let b = bytes@.subrange(pos as int, pos + 8);
        assert(b.subrange(0, 4) =~= bytes@.subrange(pos as int, pos + 4));
        assert(b.subrange(4, 8) =~= bytes@.subrange(pos + 4, pos + 8));
    }
    lo + 4294967296 * hi
}

/// Appends the four little-endian bytes of `v`.
pub fn encode_u32(v: u32, out: &mut Vec<u8>)
    ensures
        final(out)@ == old(out)@ + u32_le_bytes(v),
{
    out.push((v % 256) as u8);
    out.push((v / 256 % 256) as u8);
    out.push((v / 65536 % 256) as u8);
    out.push((v / 16777216) as u8);
    assert(out@ =~= old(out)@ + u32_le_bytes(v));
}

/// Appends the eight little-endian bytes of `v`.
pub fn encode_u64(v: u64, out: &mut Vec<u8>)
    ensures
        final(out)@ == old(out)@ + u64_le_bytes(v),
{
    encode_u32((v % 4294967296) as u32, out);
    encode_u32((v / 4294967296) as u32, out);
    assert(out@ =~= old(out)@ + u64_le_bytes(v));
}

/// Reads the variable-length integer that starts at `pos`: its value and the
/// number of bytes it takes. `None` where the bytes end first or the value
/// does not fit 64 bits.
pub fn decode_vint(bytes: &[u8], pos: usize) -> (r: Option<(u64, usize)>)
    requires
        pos <= bytes@.len(),
    ensures
        match r {
            Some((v, n)) => vint_parse(bytes@.skip(pos as int)) == Some((v, n as nat)) && 1 <= n
                <= bytes@.len() - pos,
            None => vint_parse(bytes@.skip(pos as int)) is None,
        },
{
    let ghost whole = bytes@.skip(pos as int);
    let ghost mut gw: nat = 1;
    let mut i: usize = pos;
    let mut acc: u64 = 0;
    let mut weight: u64 = 1;
    let mut weight_fits: bool = true;
    while i < bytes.len()
        invariant
            pos <= i <= bytes@.len(),
            whole == bytes@.skip(pos as int),
            gw >= 1,
            weight_fits ==> weight == gw,
            !weight_fits ==> gw > u64::MAX,
            vint_scan(whole) == match vint_scan(bytes@.skip(i as int)) {
                Some((v, n)) => Some((acc as nat + gw * v, (n + (i - pos)) as nat)),
                None => None,
            },
        decreases bytes@.len() - i,
    {
        let b: u8 = bytes[i];
        let payload: u8 = if b >= 128 { b - 128 } else { b };
        let ghost tail = bytes@.skip(i as int);
        proof {
            lemma_vint_scan_bounds(tail);
            assert(tail[0] == b);
            assert(tail.skip(1) =~= bytes@.skip(i + 1));
            if b < 128 {
                lemma_vint_scan_bounds(tail.skip(1));
            }
        }
        let ghost old_acc = acc;
        if payload != 0 {
            if !weight_fits {
                proof {
                    if let Some((v, n)) = vint_scan(tail) {
                        assert(gw * v >= gw) by (nonlinear_arith)
                            requires v >= 1, gw >= 1;
                    }
                }
                return None;
            }
            match weight.checked_mul(payload as u64) {
                None => {
                    proof {
                        if let Some((v, n)) = vint_scan(tail) {
                            assert(gw * v >= gw * payload) by (nonlinear_arith)
                                requires v >= payload, gw >= 1;
                        }
                    }
                    return None;
                },
                Some(part) => match acc.checked_add(part) {
                    None => {
                        proof {
                            if let Some((v, n)) = vint_scan(tail) {
                                assert(gw * v >= gw * payload) by (nonlinear_arith)
                                    requires v >= payload, gw >= 1;
                            }
                        }
                        return None;
                    },
                    Some(sum) => {
                        acc = sum;
                    },
                },
            }
        }
        assert(acc == old_acc + gw * payload) by (nonlinear_arith)
            requires
                payload == 0 ==> acc == old_acc,
                payload != 0 ==> acc == old_acc + gw * payload,
        ;
        if b >= 128 {
            return Some((acc, i + 1 - pos));
        }
        proof {
            if let Some((v, n)) = vint_scan(tail.skip(1)) {
                assert(old_acc + gw * (b + 128 * v) == (old_acc + gw * b) + (gw * 128) * v)
                    by (nonlinear_arith);
            }
            gw = gw * 128;
        }
        if weight_fits {
            match weight.checked_mul(128) {
                None => {
                    weight_fits = false;
                },
                Some(w) => {
                    weight = w;
                },
            }
        }
        i = i + 1;
    }
    None
}

/// Appends the variable-length encoding of `v`.
pub fn encode_vint(v: u64, out: &mut Vec<u8>)
    ensures
        final(out)@ == old(out)@ + vint_bytes(v as nat),
{
    let mut rest: u64 = v;
    while rest >= 128
        invariant
            old(out)@ + vint_bytes(v as nat) == out@ + vint_bytes(rest as nat),
        decreases rest,
    {
        out.push((rest % 128) as u8);
        proof {
            let before = out@.drop_last();
            assert(before + vint_bytes(rest as nat) =~= out@ + vint_bytes((rest / 128) as nat));
        }
        rest = rest / 128;
    }
    out.push((rest + 128) as u8);
    assert(out@ =~= out@.drop_last() + vint_bytes(rest as nat));
}

/// Four little-endian bytes always stand for a 32-bit number, eight for a
/// 64-bit one.
pub proof fn lemma_le_bounds(b: Seq<u8>)
    ensures
        b.len() == 4 ==> 0 <= u32_le(b) <= u32::MAX,
        b.len() == 8 ==> 0 <= u64_le(b) <= u64::MAX,
{
    if b.len() == 8 {
        let lo = b.subrange(0, 4);
        let hi = b.subrange(4, 8);
        assert(0 <= u32_le(lo) <= u32::MAX);
        assert(0 <= u32_le(hi) <= u32::MAX);
    }
}

/// Consumes four bytes and decodes them as a little-endian integer. Fails,
/// consuming nothing, where fewer than four bytes are left.
pub fn deserialize_u32(reader: &mut AdvancingReadOnlySource) -> (r: Result<u32, StoreError>)
    requires
        old(reader).wf(),
    ensures
        final(reader).wf(),
        match r {
            Ok(v) => {
                &&& old(reader)@.len() >= 4
                &&& v == u32_le(old(reader)@.take(4))
                &&& final(reader)@ == old(reader)@.skip(4)
                &&& final(reader).is_advanced_from(old(reader), 4)
            },
            Err(e) => {
                &&& e == StoreError::FormatCorruption
                &&& old(reader)@.len() < 4
                &&& *final(reader) == *old(reader)
            },
        },
{
    if reader.len() < 4 {
        return Err(StoreError::FormatCorruption);
    }
    let v = decode_u32(reader.as_ref(), 0);
    assert(reader@.subrange(0, 4) =~= reader@.take(4));
    reader.advance(4);
    Ok(v)
}

/// Consumes eight bytes and decodes them as a little-endian integer. Fails,
/// consuming nothing, where fewer than eight bytes are left.
pub fn deserialize_u64(reader: &mut AdvancingReadOnlySource) -> (r: Result<u64, StoreError>)
    requires
        old(reader).wf(),
    ensures
        final(reader).wf(),
        match r {
            Ok(v) => {
                &&& old(reader)@.len() >= 8
                &&& v == u64_le(old(reader)@.take(8))
                &&& final(reader)@ == old(reader)@.skip(8)
                &&& final(reader).is_advanced_from(old(reader), 8)
            },
            Err(e) => {
                &&& e == StoreError::FormatCorruption
                &&& old(reader)@.len() < 8
                &&& *final(reader) == *old(reader)
            },
        },
{
    if reader.len() < 8 {
        return Err(StoreError::FormatCorruption);
    }
    let v = decode_u64(reader.as_ref(), 0);
    assert(reader@.subrange(0, 8) =~= reader@.take(8));
    reader.advance(8);
    Ok(v)
}

/// Consumes one variable-length integer. Fails, consuming nothing, where the
/// bytes end before the integer does or its value does not fit 64 bits.
pub fn deserialize_vint(reader: &mut AdvancingReadOnlySource) -> (r: Result<u64, StoreError>)
    requires
        old(reader).wf(),
    ensures
        final(reader).wf(),
        match r {
            Ok(v) => {
                &&& vint_parse(old(reader)@) matches Some((value, n))
                &&& v == value
                &&& n <= old(reader)@.len()
                &&& final(reader)@ == old(reader)@.skip(n as int)
                &&& final(reader).is_advanced_from(old(reader), n as int)
            },
            Err(e) => {
                &&& e == StoreError::FormatCorruption
                &&& vint_parse(old(reader)@) is None
                &&& *final(reader) == *old(reader)
            },
        },
{
    assert(reader@.skip(0) =~= reader@);
    match decode_vint(reader.as_ref(), 0) {
        Some((v, n)) => {
            reader.advance(n);
            Ok(v)
        },
        None => Err(StoreError::FormatCorruption),
    }
}

} // verus!
