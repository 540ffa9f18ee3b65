use doc_store::common::decode_u32;
use doc_store::common::decode_u64;
use doc_store::common::decode_vint;
use doc_store::common::deserialize_u32;
use doc_store::common::deserialize_u64;
use doc_store::common::deserialize_vint;
use doc_store::common::encode_u32;
use doc_store::common::encode_u64;
use doc_store::common::encode_vint;
use doc_store::directory::AdvancingReadOnlySource;
use doc_store::StoreError;

fn vint(v: u64) -> Vec<u8> {
    let mut out = Vec::new();
    encode_vint(v, &mut out);
    out
}

#[test]
fn u32_is_little_endian() {
    let mut out = vec![9u8];
    encode_u32(0x0403_0201, &mut out);
    assert_eq!(out, vec![9, 1, 2, 3, 4]);
    assert_eq!(decode_u32(&out, 1), 0x0403_0201);
    assert_eq!(decode_u32(&[0xff, 0xff, 0xff, 0xff], 0), u32::MAX);
    assert_eq!(decode_u32(&[0, 0, 0, 0], 0), 0);
}

#[test]
fn u64_is_little_endian() {
    let mut out = Vec::new();
    encode_u64(0x0807_0605_0403_0201, &mut out);
    assert_eq!(out, vec![1, 2, 3, 4, 5, 6, 7, 8]);
    assert_eq!(decode_u64(&out, 0), 0x0807_0605_0403_0201);
    assert_eq!(decode_u64(&[0xff; 8], 0), u64::MAX);
    let mut padded = vec![7u8, 7];
    encode_u64(10, &mut padded);
    assert_eq!(padded, vec![7, 7, 10, 0, 0, 0, 0, 0, 0, 0]);
    assert_eq!(decode_u64(&padded, 2), 10);
}

#[test]
fn vint_encodings_are_exact() {
    assert_eq!(vint(0), vec![0x80]);
    assert_eq!(vint(1), vec![0x81]);
    assert_eq!(vint(5), vec![0x85]);
    assert_eq!(vint(127), vec![0xff]);
    assert_eq!(vint(128), vec![0x00, 0x81]);
    assert_eq!(vint(300), vec![44, 0x82]);
    assert_eq!(vint(16383), vec![0x7f, 0xff]);
    assert_eq!(vint(16384), vec![0x00, 0x00, 0x81]);
    assert_eq!(
        vint(u64::MAX),
        vec![0x7f, 0x7f, 0x7f, 0x7f, 0x7f, 0x7f, 0x7f, 0x7f, 0x7f, 0x81]
    );
}

#[test]
fn vint_appends_to_what_is_there() {
    let mut out = vec![1u8, 2];
    encode_vint(300, &mut out);
    assert_eq!(out, vec![1, 2, 44, 0x82]);
}

#[test]
fn vint_decodes_value_and_length() {
    assert_eq!(decode_vint(&[0x80], 0), Some((0, 1)));
    assert_eq!(decode_vint(&[0xff], 0), Some((127, 1)));
    assert_eq!(decode_vint(&[0x00, 0x81], 0), Some((128, 2)));
    assert_eq!(decode_vint(&[44, 0x82, 9, 9], 0), Some((300, 2)));
    assert_eq!(decode_vint(&[9, 9, 44, 0x82, 9], 2), Some((300, 2)));
    assert_eq!(decode_vint(&vint(u64::MAX), 0), Some((u64::MAX, 10)));
}

#[test]
fn vint_round_trips() {
    let values: [u64; 12] = [
        0,
        1,
        127,
        128,
        255,
        256,
        16383,
        16384,
        1 << 32,
        (1 << 56) - 1,
        1 << 63,
        u64::MAX,
    ];
    for v in values {
        let bytes = vint(v);
        assert_eq!(decode_vint(&bytes, 0), Some((v, bytes.len())));
    }
}

#[test]
fn vint_without_end_is_rejected() {
    assert_eq!(decode_vint(&[], 0), None);
    assert_eq!(decode_vint(&[0x01], 0), None);
    assert_eq!(decode_vint(&[0x7f, 0x7f, 0x7f], 0), None);
    assert_eq!(decode_vint(&[0x80], 1), None);
}

#[test]
fn vint_beyond_64_bits_is_rejected() {
    // 2^64: nine zero groups, then 2 in the tenth
    assert_eq!(
        decode_vint(&[0, 0, 0, 0, 0, 0, 0, 0, 0, 0x82], 0),
        None
    );
    // the tenth group may only hold one bit
    assert_eq!(
        decode_vint(&[0x7f, 0x7f, 0x7f, 0x7f, 0x7f, 0x7f, 0x7f, 0x7f, 0x7f, 0x82], 0),
        None
    );
    // an eleventh group that is not zero
    assert_eq!(
        decode_vint(&[0, 0, 0, 0, 0, 0, 0, 0, 0, 0, 0x81], 0),
        None
    );
}

#[test]
fn vint_with_zero_padding_keeps_its_value() {
    assert_eq!(decode_vint(&[5, 0, 0x80], 0), Some((5, 3)));
    assert_eq!(
        decode_vint(&[1, 0, 0, 0, 0, 0, 0, 0, 0, 0, 0, 0, 0x80], 0),
        Some((1, 13))
    );
}

#[test]
fn deserializing_consumes_the_cursor() {
    let mut bytes = Vec::new();
    encode_vint(300, &mut bytes);
    encode_u64(77, &mut bytes);
    encode_u32(12, &mut bytes);
    bytes.push(0xaa);
    let mut cursor = AdvancingReadOnlySource::from(bytes);
    assert_eq!(deserialize_vint(&mut cursor), Ok(300));
    assert_eq!(cursor.len(), 13);
    assert_eq!(deserialize_u64(&mut cursor), Ok(77));
    assert_eq!(cursor.len(), 5);
    assert_eq!(deserialize_u32(&mut cursor), Ok(12));
    assert_eq!(cursor.as_ref(), &[0xaa]);
}

#[test]
fn deserializing_short_input_fails_and_consumes_nothing() {
    let mut cursor = AdvancingReadOnlySource::from(vec![1u8, 2, 3]);
    assert_eq!(deserialize_u32(&mut cursor), Err(StoreError::FormatCorruption));
    assert_eq!(deserialize_u64(&mut cursor), Err(StoreError::FormatCorruption));
    assert_eq!(deserialize_vint(&mut cursor), Err(StoreError::FormatCorruption));
    assert_eq!(cursor.as_ref(), &[1, 2, 3]);
}
