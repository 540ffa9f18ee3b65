use doc_store::directory::AdvancingReadOnlySource;
use doc_store::directory::BoxedData;
use doc_store::directory::ReadOnlySource;
use doc_store::directory::SeekFrom;
use doc_store::StoreError;
use std::sync::Arc;

fn digits() -> ReadOnlySource {
    ReadOnlySource::from(vec![0u8, 1, 2, 3, 4, 5, 6, 7, 8, 9])
}

#[test]
fn boxed_data_shares_its_bytes() {
    let shared = Arc::new(vec![1u8, 2, 3]);
    let data = BoxedData::new(shared.clone());
    let copy = data.clone();
    assert_eq!(data.len(), 3);
    assert_eq!(data.as_ref(), &[1, 2, 3]);
    assert_eq!(&*copy, &[1u8, 2, 3][..]);
    assert!(Arc::ptr_eq(data.shared(), copy.shared()));
    assert!(Arc::ptr_eq(data.shared(), &shared));
}

#[test]
fn source_from_boxed_data_covers_it() {
    let data = BoxedData::new(Arc::new(vec![4u8, 5, 6]));
    let source = ReadOnlySource::from(data);
    assert_eq!(source.len(), 3);
    assert_eq!(source.as_slice(), &[4, 5, 6]);
}

#[test]
fn empty_source_has_no_bytes() {
    let mut source = ReadOnlySource::empty();
    assert_eq!(source.len(), 0);
    assert_eq!(source.as_slice(), &[] as &[u8]);
    assert_eq!(source.read_all(), Ok(vec![]));
    assert_eq!(source.get(0), Err(StoreError::BoundsViolation));
    let advancing = AdvancingReadOnlySource::empty();
    assert!(advancing.is_empty());
}

#[test]
fn slice_is_a_window() {
    let source = digits();
    assert_eq!(source.slice(2, 5).as_slice(), &[2, 3, 4]);
    assert_eq!(source.slice(0, 10).as_slice(), source.as_slice());
    assert_eq!(source.slice(4, 4).len(), 0);
    assert_eq!(source.slice_from(7).as_slice(), &[7, 8, 9]);
    assert_eq!(source.slice_to(3).as_slice(), &[0, 1, 2]);
    assert_eq!(source.slice_from(10).len(), 0);
}

#[test]
fn slices_compose() {
    let source = digits();
    for a in 0..=10usize {
        for d in a..=10usize {
            let outer = source.slice(a, d);
            for b in a..=d {
                for c in b..=d {
                    let inner = outer.slice(b - a, c - a);
                    assert_eq!(inner.as_slice(), source.slice(b, c).as_slice());
                }
            }
        }
    }
}

#[test]
fn split_cuts_in_two() {
    let (left, right) = digits().split(4);
    assert_eq!(left.as_slice(), &[0, 1, 2, 3]);
    assert_eq!(right.as_slice(), &[4, 5, 6, 7, 8, 9]);
    let (nothing, all) = digits().split(0);
    assert_eq!(nothing.len(), 0);
    assert_eq!(all.len(), 10);
    let (all, nothing) = digits().split(10);
    assert_eq!(all.len(), 10);
    assert_eq!(nothing.len(), 0);
}

#[test]
fn read_moves_the_cursor_and_stops_at_the_window() {
    let mut source = digits().slice(2, 7);
    let mut buf = [0xffu8; 3];
    assert_eq!(source.read(&mut buf), Ok(3));
    assert_eq!(buf, [2, 3, 4]);
    let mut buf = [0xffu8; 3];
    assert_eq!(source.read(&mut buf), Ok(2));
    assert_eq!(buf, [5, 6, 0xff]);
    assert_eq!(source.read(&mut buf), Ok(0));
    assert_eq!(buf, [5, 6, 0xff]);
    let mut none: [u8; 0] = [];
    assert_eq!(source.read(&mut none), Ok(0));
}

#[test]
fn seek_from_start_end_and_current() {
    let mut source = digits().slice(2, 7);
    // the result counts from the start of the buffer
    assert_eq!(source.seek(SeekFrom::Start(0)), Ok(2));
    assert_eq!(source.seek(SeekFrom::Start(3)), Ok(5));
    assert_eq!(source.seek(SeekFrom::Current(1)), Ok(6));
    assert_eq!(source.seek(SeekFrom::Current(-4)), Ok(2));
    assert_eq!(source.seek(SeekFrom::End(0)), Ok(7));
    assert_eq!(source.seek(SeekFrom::End(-5)), Ok(2));
    assert_eq!(source.seek(SeekFrom::End(-2)), Ok(5));
    let mut buf = [0u8; 4];
    assert_eq!(source.read(&mut buf), Ok(2));
    assert_eq!(buf, [5, 6, 0, 0]);
}

#[test]
fn seek_outside_the_window_fails_and_keeps_the_cursor() {
    let mut source = digits().slice(2, 7);
    assert_eq!(source.seek(SeekFrom::Start(2)), Ok(4));
    assert_eq!(source.seek(SeekFrom::Start(6)), Err(StoreError::BoundsViolation));
    assert_eq!(source.seek(SeekFrom::Start(u64::MAX)), Err(StoreError::BoundsViolation));
    assert_eq!(source.seek(SeekFrom::End(1)), Err(StoreError::BoundsViolation));
    assert_eq!(source.seek(SeekFrom::End(-6)), Err(StoreError::BoundsViolation));
    assert_eq!(source.seek(SeekFrom::End(i64::MIN)), Err(StoreError::BoundsViolation));
    assert_eq!(source.seek(SeekFrom::Current(4)), Err(StoreError::BoundsViolation));
    assert_eq!(source.seek(SeekFrom::Current(-3)), Err(StoreError::BoundsViolation));
    assert_eq!(source.seek(SeekFrom::Current(i64::MAX)), Err(StoreError::BoundsViolation));
    assert_eq!(source.seek(SeekFrom::Current(i64::MIN)), Err(StoreError::BoundsViolation));
    assert_eq!(source.seek(SeekFrom::Current(0)), Ok(4));
}

#[test]
fn read_all_reads_the_rest_and_rewinds() {
    let mut source = digits().slice(2, 7);
    assert_eq!(source.read_all(), Ok(vec![2, 3, 4, 5, 6]));
    assert_eq!(source.seek(SeekFrom::Start(3)), Ok(5));
    assert_eq!(source.read_all(), Ok(vec![5, 6]));
    assert_eq!(source.seek(SeekFrom::Current(0)), Ok(2));
    assert_eq!(source.read_all(), Ok(vec![2, 3, 4, 5, 6]));
}

#[test]
fn read_after_skip_keeps_the_cursor() {
    let mut source = digits().slice(2, 7);
    assert_eq!(source.seek(SeekFrom::Start(1)), Ok(3));
    assert_eq!(source.read_after_skip(3), Ok(vec![5, 6]));
    assert_eq!(source.read_after_skip(0), Ok(vec![2, 3, 4, 5, 6]));
    assert_eq!(source.read_after_skip(5), Ok(vec![]));
    assert_eq!(source.read_after_skip(6), Err(StoreError::BoundsViolation));
    assert_eq!(source.seek(SeekFrom::Current(0)), Ok(3));
}

#[test]
fn get_keeps_the_cursor() {
    let mut source = digits().slice(2, 7);
    assert_eq!(source.seek(SeekFrom::Start(4)), Ok(6));
    assert_eq!(source.get(0), Ok(2));
    assert_eq!(source.get(4), Ok(6));
    assert_eq!(source.get(5), Err(StoreError::BoundsViolation));
    assert_eq!(source.get(usize::MAX), Err(StoreError::BoundsViolation));
    assert_eq!(source.seek(SeekFrom::Current(0)), Ok(6));
}

#[test]
fn clone_has_its_own_cursor() {
    let mut source = digits().slice(2, 7);
    assert_eq!(source.seek(SeekFrom::Start(2)), Ok(4));
    let mut copy = source.clone();
    assert_eq!(copy.as_slice(), source.as_slice());
    // the cursor of the copy starts at the start of the window
    assert_eq!(copy.seek(SeekFrom::Current(0)), Ok(2));
    assert_eq!(copy.seek(SeekFrom::End(0)), Ok(7));
    let mut buf = [0u8; 8];
    assert_eq!(copy.read(&mut buf), Ok(0));
    // the source has not moved, and its window is what it was
    assert_eq!(source.seek(SeekFrom::Current(0)), Ok(4));
    assert_eq!(source.as_slice(), &[2, 3, 4, 5, 6]);
    assert_eq!(source.read(&mut buf), Ok(3));
    assert_eq!(&buf[..3], &[4, 5, 6]);
    assert_eq!(copy.seek(SeekFrom::Current(0)), Ok(7));
}

#[test]
fn advancing_clone_is_consumed_alone() {
    let source = AdvancingReadOnlySource::from(digits().slice(2, 7));
    let mut copy = source.clone();
    copy.advance(3);
    assert_eq!(copy.as_ref(), &[5, 6]);
    assert_eq!(source.as_ref(), &[2, 3, 4, 5, 6]);
}

#[test]
fn advance_drops_the_front() {
    let mut source = AdvancingReadOnlySource::from(vec![1u8, 2, 3, 4]);
    source.advance(0);
    assert_eq!(source.as_ref(), &[1, 2, 3, 4]);
    source.advance(1);
    assert_eq!(source.as_ref(), &[2, 3, 4]);
    assert_eq!(source.len(), 3);
    assert!(!source.is_empty());
    source.advance(3);
    assert!(source.is_empty());
    assert_eq!(source.len(), 0);
}

#[test]
fn advancing_read_consumes() {
    let mut source = AdvancingReadOnlySource::from(vec![1u8, 2, 3, 4, 5]);
    let mut buf = [0u8; 2];
    assert_eq!(source.read(&mut buf), Ok(2));
    assert_eq!(buf, [1, 2]);
    assert_eq!(source.as_ref(), &[3, 4, 5]);
    assert_eq!(source.read(&mut buf), Ok(2));
    assert_eq!(buf, [3, 4]);
    assert_eq!(source.read(&mut buf), Ok(1));
    assert_eq!(buf, [5, 4]);
    assert!(source.is_empty());
    assert_eq!(source.read(&mut buf), Ok(0));
}

#[test]
fn read_without_advancing_can_be_repeated() {
    let mut source = AdvancingReadOnlySource::from(vec![1u8, 2, 3]);
    let mut buf = [0u8; 2];
    assert_eq!(source.read_without_advancing(&mut buf), Ok(2));
    assert_eq!(buf, [1, 2]);
    let mut again = [0u8; 4];
    assert_eq!(source.read_without_advancing(&mut again), Ok(3));
    assert_eq!(again, [1, 2, 3, 0]);
    assert_eq!(source.as_ref(), &[1, 2, 3]);
    assert_eq!(source.read(&mut buf), Ok(2));
    assert_eq!(buf, [1, 2]);
}

#[test]
fn advancing_get_and_read_all_consume_nothing() {
    let mut source = AdvancingReadOnlySource::from(vec![1u8, 2, 3]);
    source.advance(1);
    assert_eq!(source.get(0), 2);
    assert_eq!(source.get(1), 3);
    assert_eq!(source.read_all(), Ok(vec![2, 3]));
    assert_eq!(source.as_ref(), &[2, 3]);
}

#[test]
fn advancing_split_cuts_in_two() {
    let mut source = AdvancingReadOnlySource::from(vec![1u8, 2, 3, 4, 5]);
    source.advance(1);
    let (left, right) = source.split(2);
    assert_eq!(left.as_ref(), &[2, 3]);
    assert_eq!(right.as_ref(), &[4, 5]);
}
