use memoverlay::{checked_add, MemOverlay, OverlayError, SeekFrom};

#[test]
fn seek_reaches_the_last_valid_position_and_no_further() {
    let mut overlay = MemOverlay::from(b"0123456789".to_vec());
    assert_eq!(overlay.last_valid_position(), 9);
    assert_eq!(overlay.seek(SeekFrom::Start(10)), Err(OverlayError::SeekOutOfRange));
    assert_eq!(overlay.seek(SeekFrom::End(1)), Err(OverlayError::SeekOutOfRange));
    assert_eq!(overlay.seek(SeekFrom::Start(4)), Ok(4));
    assert_eq!(overlay.seek(SeekFrom::Current(6)), Err(OverlayError::SeekOutOfRange));
    // a seek that fails leaves the cursor where it was
    assert_eq!(overlay.stream_position(), 4);
    assert_eq!(overlay.seek(SeekFrom::Current(5)), Ok(9));
    assert_eq!(overlay.seek(SeekFrom::End(0)), Ok(9));
    assert_eq!(overlay.seek(SeekFrom::Start(9)), Ok(9));

    let mut buf = [0u8; 1];
    assert_eq!(overlay.read(&mut buf), Ok(1));
    assert_eq!(buf, [b'9']);
    assert_eq!(overlay.read(&mut buf), Ok(0));
}

#[test]
fn seek_boundary_follows_the_patches() {
    let mut overlay = MemOverlay::from(b"0123456789".to_vec());
    overlay.add_bytes_at(8, b"abcd").unwrap();
    assert_eq!(overlay.last_valid_position(), 11);
    assert_eq!(overlay.seek(SeekFrom::Start(12)), Err(OverlayError::SeekOutOfRange));
    assert_eq!(overlay.seek(SeekFrom::End(-1)), Ok(10));
    assert_eq!(overlay.seek(SeekFrom::Current(2)), Err(OverlayError::SeekOutOfRange));
    assert_eq!(overlay.seek(SeekFrom::Current(1)), Ok(11));
    let mut buf = [0u8; 1];
    assert_eq!(overlay.read(&mut buf), Ok(1));
    assert_eq!(buf, [b'd']);
    assert_eq!(overlay.read(&mut buf), Ok(0));
}

#[test]
fn seek_before_the_start_is_out_of_range() {
    let mut overlay = MemOverlay::from(b"0123456789".to_vec());
    assert_eq!(overlay.seek(SeekFrom::Current(-1)), Err(OverlayError::SeekOutOfRange));
    assert_eq!(overlay.seek(SeekFrom::End(-10)), Err(OverlayError::SeekOutOfRange));
    assert_eq!(overlay.seek(SeekFrom::End(-9)), Ok(0));
    assert_eq!(overlay.seek(SeekFrom::Current(i64::MIN)), Err(OverlayError::SeekOutOfRange));
    assert_eq!(overlay.seek(SeekFrom::Current(i64::MAX)), Err(OverlayError::SeekOutOfRange));
}

#[test]
fn checked_add_never_wraps() {
    assert_eq!(checked_add(5, 3), Ok(8));
    assert_eq!(checked_add(5, -5), Ok(0));
    assert_eq!(checked_add(5, -6), Err(OverlayError::SeekOutOfRange));
    assert_eq!(checked_add(0, i64::MIN), Err(OverlayError::SeekOutOfRange));
    assert_eq!(checked_add(0, i64::MAX), Ok(i64::MAX as u64));
    assert_eq!(checked_add(1, i64::MAX), Ok(i64::MAX as u64 + 1));
    assert_eq!(checked_add(i64::MAX as u64, i64::MIN), Err(OverlayError::SeekOutOfRange));
    assert_eq!(checked_add(i64::MAX as u64 + 1, i64::MIN), Ok(0));
    assert_eq!(checked_add(i64::MAX as u64 + 1, -1), Ok(i64::MAX as u64));
    assert_eq!(checked_add(u64::MAX, i64::MIN), Ok(i64::MAX as u64));
    assert_eq!(checked_add(u64::MAX, 0), Ok(u64::MAX));
    assert_eq!(checked_add(u64::MAX, 1), Err(OverlayError::SeekOutOfRange));
    assert_eq!(checked_add(u64::MAX - 5, 5), Ok(u64::MAX));
    assert_eq!(checked_add(u64::MAX - 5, 6), Err(OverlayError::SeekOutOfRange));
}
