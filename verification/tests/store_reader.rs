use doc_store::common::encode_u32;
use doc_store::common::encode_u64;
use doc_store::directory::ReadOnlySource;
use doc_store::store::BlockCodec;
use doc_store::store::RunLength;
use doc_store::store::StoreReader;
use doc_store::store::StoreWriter;
use doc_store::store::Uncompressed;
use doc_store::StoreError;

fn one_document_store() -> Vec<u8> {
    let mut bytes: Vec<u8> = Vec::new();
    // data region: one block of six stored bytes holding one document
    bytes.extend_from_slice(&[6, 0, 0, 0]);
    bytes.push(0x85);
    bytes.extend_from_slice(b"hello");
    // index region: one entry, key 1, offset 0
    bytes.push(0x81);
    bytes.push(0x81);
    bytes.extend_from_slice(&[0, 0, 0, 0, 0, 0, 0, 0]);
    // footer
    bytes.extend_from_slice(&[10, 0, 0, 0, 0, 0, 0, 0]);
    bytes.extend_from_slice(&[1, 0, 0, 0]);
    bytes
}

fn document(i: u32) -> Vec<u8> {
    let len = (i as usize * 7) % 23;
    (0..len).map(|k| (i as usize + k / 3) as u8).collect()
}

fn written<C: BlockCodec>(codec: C, docs: u32, per_block: u32) -> Vec<u8> {
    let mut writer = StoreWriter::new(codec);
    for i in 0..docs {
        assert!(writer.store(&document(i)));
        if (i + 1) % per_block == 0 {
            assert!(writer.end_block());
        }
    }
    writer.close().unwrap()
}

fn open<C: BlockCodec>(bytes: Vec<u8>, codec: C) -> StoreReader<C> {
    StoreReader::from_source(ReadOnlySource::from(bytes), codec).unwrap()
}

fn failure_to_open(bytes: Vec<u8>) -> Option<StoreError> {
    match StoreReader::from_source(ReadOnlySource::from(bytes), Uncompressed) {
        Ok(_) => None,
        Err(e) => Some(e),
    }
}

/// A store with a given data region, index region and document count.
fn assembled(data: &[u8], index: &[u8], max_doc: u32) -> Vec<u8> {
    let mut bytes = data.to_vec();
    bytes.extend_from_slice(index);
    encode_u64(data.len() as u64, &mut bytes);
    encode_u32(max_doc, &mut bytes);
    bytes
}

#[test]
fn single_document_is_read_back() {
    let mut reader = open(one_document_store(), Uncompressed);
    assert_eq!(reader.max_doc(), 1);
    assert_eq!(reader.get(0), Ok(b"hello".to_vec()));
}

#[test]
fn identifier_at_max_doc_is_not_found() {
    let mut reader = open(one_document_store(), Uncompressed);
    assert_eq!(reader.get(1), Err(StoreError::DocumentNotFound(1)));
    assert_eq!(reader.get(u32::MAX), Err(StoreError::DocumentNotFound(u32::MAX)));
    assert_eq!(reader.get(0), Ok(b"hello".to_vec()));
    assert_eq!(reader.get(1), Err(StoreError::DocumentNotFound(1)));
}

#[test]
fn single_document_without_index_entry_is_read_back() {
    // an empty index: the lookup falls back on the first block
    let store = assembled(&[6, 0, 0, 0, 0x85, b'h', b'e', b'l', b'l', b'o'], &[0x80], 1);
    let mut reader = open(store, Uncompressed);
    assert_eq!(reader.get(0), Ok(b"hello".to_vec()));
    assert_eq!(reader.get(1), Err(StoreError::DocumentNotFound(1)));
}

#[test]
fn empty_store_opens_and_holds_nothing() {
    let store = assembled(&[], &[0x80], 0);
    let mut reader = open(store, Uncompressed);
    assert_eq!(reader.max_doc(), 0);
    for doc_id in [0u32, 1, 2, 1000, u32::MAX] {
        assert_eq!(reader.get(doc_id), Err(StoreError::DocumentNotFound(doc_id)));
    }
    let usage = reader.space_usage();
    assert_eq!(usage.data_usage(), 0);
    assert_eq!(usage.offsets_usage(), 1);
}

#[test]
fn footer_alone_is_an_empty_store() {
    let store = assembled(&[], &[], 0);
    assert_eq!(store.len(), 12);
    let mut reader = open(store, Uncompressed);
    assert_eq!(reader.get(0), Err(StoreError::DocumentNotFound(0)));
    assert_eq!(reader.space_usage().data_usage(), 0);
    assert_eq!(reader.space_usage().offsets_usage(), 0);
}

#[test]
fn store_shorter_than_a_footer_does_not_open() {
    assert_eq!(failure_to_open(vec![]), Some(StoreError::FormatCorruption));
    assert_eq!(failure_to_open(vec![0; 11]), Some(StoreError::FormatCorruption));
    assert_eq!(failure_to_open(vec![0; 12]), None);
}

#[test]
fn footer_that_points_past_its_start_does_not_open() {
    let mut store = one_document_store();
    let at = store.len() - 12;
    // the index region may be empty, so the start of the footer is allowed
    store[at] = at as u8;
    assert_eq!(failure_to_open(store.clone()), None);
    store[at] = at as u8 + 1;
    assert_eq!(failure_to_open(store.clone()), Some(StoreError::FormatCorruption));
    store[at + 7] = 0x80;
    assert_eq!(failure_to_open(store), Some(StoreError::FormatCorruption));
}

#[test]
fn space_usage_gives_the_region_lengths() {
    let reader = open(one_document_store(), Uncompressed);
    let usage = reader.space_usage();
    assert_eq!(usage.data_usage(), 10);
    assert_eq!(usage.offsets_usage(), 10);
}

#[test]
fn regions_are_what_the_footer_says() {
    let mut reader = open(one_document_store(), Uncompressed);
    assert_eq!(
        reader.block_data(),
        vec![6, 0, 0, 0, 0x85, b'h', b'e', b'l', b'l', b'o']
    );
    assert_eq!(reader.compressed_block(0), Ok(vec![0x85, b'h', b'e', b'l', b'l', b'o']));
    let index = reader.block_index().unwrap();
    assert_eq!(index.len(), 1);
    assert_eq!(index.seek(1), (1, 0));
    assert_eq!(reader.block_offset(0), Ok((0, 0)));
}

#[test]
fn every_document_is_read_back() {
    for per_block in [1u32, 2, 3, 5, 64, 1000] {
        let mut reader = open(written(Uncompressed, 64, per_block), Uncompressed);
        assert_eq!(reader.max_doc(), 64);
        for i in 0..64u32 {
            assert_eq!(reader.get(i), Ok(document(i)));
        }
        assert_eq!(reader.get(64), Err(StoreError::DocumentNotFound(64)));
    }
}

#[test]
fn every_document_is_read_back_through_run_length() {
    for per_block in [1u32, 4, 7, 50] {
        let mut reader = open(written(RunLength, 50, per_block), RunLength);
        for i in (0..50u32).rev() {
            assert_eq!(reader.get(i), Ok(document(i)));
        }
    }
}

#[test]
fn documents_at_block_boundaries_are_read_back() {
    let mut reader = open(written(Uncompressed, 12, 4), Uncompressed);
    assert_eq!(reader.block_offset(0).map(|found| found.0), Ok(0));
    assert_eq!(reader.block_offset(3).map(|found| found.0), Ok(0));
    assert_eq!(reader.block_offset(4).map(|found| found.0), Ok(4));
    assert_eq!(reader.block_offset(7).map(|found| found.0), Ok(4));
    assert_eq!(reader.block_offset(8).map(|found| found.0), Ok(8));
    assert_eq!(reader.block_offset(11).map(|found| found.0), Ok(8));
    for i in [3u32, 4, 7, 8, 11, 0] {
        assert_eq!(reader.get(i), Ok(document(i)));
    }
}

#[test]
fn kept_block_never_shows_in_the_result() {
    let bytes = written(RunLength, 30, 5);
    let mut warm = open(bytes.clone(), RunLength);
    let order = [0u32, 1, 29, 2, 28, 28, 3, 14, 15, 14, 0, 29, 7, 7, 7, 22];
    for i in order {
        let mut fresh = open(bytes.clone(), RunLength);
        let expected = fresh.get(i);
        assert_eq!(expected, Ok(document(i)));
        assert_eq!(warm.get(i), expected);
        assert_eq!(warm.get(i), expected);
    }
}

#[test]
fn read_block_keeps_one_block() {
    let mut reader = open(written(Uncompressed, 4, 2), Uncompressed);
    let (_, second) = reader.block_offset(2).unwrap();
    assert_eq!(reader.read_block(0), Ok(()));
    assert_eq!(reader.read_block(0), Ok(()));
    assert_eq!(reader.read_block(second as usize), Ok(()));
    assert_eq!(reader.read_block(second as usize + 1), Err(StoreError::FormatCorruption));
    assert_eq!(reader.get(0), Ok(document(0)));
    assert_eq!(reader.get(3), Ok(document(3)));
}

#[test]
fn cloned_readers_do_not_disturb_each_other() {
    let mut first = open(written(RunLength, 40, 3), RunLength);
    assert_eq!(first.get(17), Ok(document(17)));
    let mut readers = vec![first.clone(), first.clone(), first.clone()];
    for round in 0..40u32 {
        for (k, reader) in readers.iter_mut().enumerate() {
            let i = (round * (2 * k as u32 + 1) + 11 * k as u32) % 40;
            assert_eq!(reader.get(i), Ok(document(i)));
        }
        assert_eq!(first.get(39 - round), Ok(document(39 - round)));
    }
}

#[test]
fn corrupted_index_fails_the_read() {
    // the count says one entry and there is none
    let store = assembled(&[6, 0, 0, 0, 0x85, b'h', b'e', b'l', b'l', b'o'], &[0x81], 1);
    let mut reader = open(store, Uncompressed);
    assert_eq!(reader.get(0), Err(StoreError::FormatCorruption));
    assert_eq!(reader.block_offset(0), Err(StoreError::FormatCorruption));
    // the bound on the identifier comes first
    assert_eq!(reader.get(1), Err(StoreError::DocumentNotFound(1)));
}

#[test]
fn block_offset_past_the_data_fails_the_read() {
    let data = [6u8, 0, 0, 0, 0x85, b'h', b'e', b'l', b'l', b'o'];
    for offset in [7u8, 10, 11, 200] {
        let index = [0x81, 0x81, offset, 0, 0, 0, 0, 0, 0, 0];
        let mut reader = open(assembled(&data, &index, 1), Uncompressed);
        assert_eq!(reader.get(0), Err(StoreError::FormatCorruption));
    }
    let index = [0x81, 0x81, 0, 0, 0, 0, 0, 0, 0, 0x80];
    let mut reader = open(assembled(&data, &index, 1), Uncompressed);
    assert_eq!(reader.get(0), Err(StoreError::FormatCorruption));
}

#[test]
fn block_length_past_the_data_fails_the_read() {
    let data = [7u8, 0, 0, 0, 0x85, b'h', b'e', b'l', b'l', b'o'];
    let mut reader = open(assembled(&data, &[0x80], 1), Uncompressed);
    assert_eq!(reader.get(0), Err(StoreError::FormatCorruption));
    assert_eq!(reader.compressed_block(0), Err(StoreError::FormatCorruption));
    let data = [0xffu8, 0xff, 0xff, 0xff, 0x85];
    let mut reader = open(assembled(&data, &[0x80], 1), Uncompressed);
    assert_eq!(reader.get(0), Err(StoreError::FormatCorruption));
    let data = [1u8, 0, 0];
    let mut reader = open(assembled(&data, &[0x80], 1), Uncompressed);
    assert_eq!(reader.get(0), Err(StoreError::FormatCorruption));
}

#[test]
fn document_length_past_the_block_fails_the_read() {
    // two documents are announced, the block holds one and a half
    let data = [6u8, 0, 0, 0, 0x82, b'h', b'i', 0x84, b'y', b'o'];
    let mut reader = open(assembled(&data, &[0x80], 2), Uncompressed);
    assert_eq!(reader.get(0), Ok(b"hi".to_vec()));
    assert_eq!(reader.get(1), Err(StoreError::FormatCorruption));
    // a length that never ends
    let data = [3u8, 0, 0, 0, 0x01, 0x02, 0x03];
    let mut reader = open(assembled(&data, &[0x80], 1), Uncompressed);
    assert_eq!(reader.get(0), Err(StoreError::FormatCorruption));
    // a block that ends before the document that is asked for
    let data = [3u8, 0, 0, 0, 0x82, b'h', b'i'];
    let mut reader = open(assembled(&data, &[0x80], 3), Uncompressed);
    assert_eq!(reader.get(0), Ok(b"hi".to_vec()));
    assert_eq!(reader.get(1), Err(StoreError::FormatCorruption));
    assert_eq!(reader.get(2), Err(StoreError::FormatCorruption));
}

#[test]
fn block_that_the_codec_rejects_fails_the_read() {
    // run-length pairs with a byte left over
    let data = [3u8, 0, 0, 0, 1, 0x81, 9];
    let mut reader = open(assembled(&data, &[0x80], 1), RunLength);
    assert_eq!(reader.get(0), Err(StoreError::CodecFailure));
    assert_eq!(reader.read_block(0), Err(StoreError::CodecFailure));
    // a run of length zero
    let data = [4u8, 0, 0, 0, 1, 0x80, 0, 7];
    let mut reader = open(assembled(&data, &[0x80], 1), RunLength);
    assert_eq!(reader.get(0), Err(StoreError::CodecFailure));
    // the same bytes without the bad pair
    let data = [2u8, 0, 0, 0, 1, 0x80];
    let mut reader = open(assembled(&data, &[0x80], 1), RunLength);
    assert_eq!(reader.get(0), Ok(vec![]));
}

#[test]
fn failed_read_leaves_the_reader_usable() {
    // block 0 is fine, block 1 is rejected by the codec
    let data = [4u8, 0, 0, 0, 1, 0x81, 1, 7, 1, 0, 0, 0, 9];
    let index = [0x82, 0x81, 0, 0, 0, 0, 0, 0, 0, 0, 0x82, 8, 0, 0, 0, 0, 0, 0, 0];
    let mut reader = open(assembled(&data, &index, 2), RunLength);
    assert_eq!(reader.get(0), Ok(vec![7]));
    assert_eq!(reader.get(1), Err(StoreError::CodecFailure));
    assert_eq!(reader.get(0), Ok(vec![7]));
    assert_eq!(reader.get(1), Err(StoreError::CodecFailure));
}

#[test]
fn error_descriptions_name_the_failure() {
    assert_eq!(StoreError::FormatCorruption.description(), "the store bytes are corrupted");
    assert_eq!(StoreError::CodecFailure.description(), "the block codec failed");
    assert_eq!(StoreError::BoundsViolation.description(), "access outside the source window");
    assert_eq!(StoreError::DocumentNotFound(3).description(), "no such document");
}
