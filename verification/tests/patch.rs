use memoverlay::{Contains, OverlayError, Patch, SolidPatch};

#[test]
fn patch_of_no_bytes_is_refused() {
    assert!(Patch::new(10, &[0u8, 1, 2, 3, 4, 5, 6, 7, 8, 9][..]).is_ok());
    assert_eq!(Patch::new(10, &[][..]).err(), Some(OverlayError::EmptyPatch));
    assert!(Patch::new(10, &[0u8, 1, 2, 3, 4, 5, 6, 7, 8, 9][3..3]).is_err());
    assert_eq!(Patch::new(10, Vec::new()).err(), Some(OverlayError::EmptyPatch));
    assert!(Patch::new(10, vec![7u8]).is_ok());
}

#[test]
fn patch_knows_its_span() {
    let patch = Patch::new(10, vec![1u8, 2, 3]).unwrap();
    assert_eq!(patch.begin(), 10);
    assert_eq!(patch.first_byte_offset(), 10);
    assert_eq!(patch.end(), 13);
    assert_eq!(patch.last_byte_offset(), 12);
    let patch = Patch::new(u64::MAX - 1, vec![1u8]).unwrap();
    assert_eq!(patch.end(), u64::MAX);
    assert_eq!(patch.last_byte_offset(), u64::MAX - 1);
}

#[test]
fn patch_contains_its_span_only() {
    let patch = Patch::new(10, vec![1u8, 2, 3]).unwrap();
    assert!(!patch.contains(9));
    assert!(patch.contains(10));
    assert!(patch.contains(12));
    assert!(!patch.contains(13));
}

#[test]
fn patch_id_packs_offset_and_length() {
    let patch = Patch::new(10, vec![1u8, 2, 3]).unwrap();
    assert_eq!(patch.id(), (10u128 << 64) | 3);
    let first = Patch::new(0, vec![9u8]).unwrap();
    assert_eq!(first.id(), 1);
    let far = Patch::new(u64::MAX - 2, vec![9u8, 9]).unwrap();
    assert_eq!(far.id(), ((u64::MAX as u128 - 2) << 64) | 2);
}

#[test]
fn patches_overlap_where_one_begins_within_the_other() {
    let patch1 = Patch::new(10, &[0u8, 1, 2, 3, 4, 5, 6, 7, 8, 9][..]).unwrap();
    assert!(patch1.overlaps(&patch1));

    let patch2 = Patch::new(12, &[1u8, 2, 3][..]).unwrap();
    assert!(patch1.overlaps(&patch2));
    assert!(patch2.overlaps(&patch1));

    let patch3 = Patch::new(15, &[1u8, 2, 3, 4, 5][..]).unwrap();
    assert!(patch1.overlaps(&patch3));
    assert!(!patch2.overlaps(&patch3));

    let patch4 = Patch::new(0, &[0u8, 1, 2, 3, 4, 5, 6, 7, 8, 9][..]).unwrap();
    assert!(!patch1.overlaps(&patch4));
}

#[test]
fn patch_read_is_bounded_by_patch_and_buffer() {
    let patch = Patch::new(100, vec![1u8, 2, 3, 4, 5]).unwrap();
    let mut buf = [0u8; 3];
    assert_eq!(patch.read(0, &mut buf), Ok(3));
    assert_eq!(buf, [1, 2, 3]);
    let mut buf = [0u8; 8];
    assert_eq!(patch.read(2, &mut buf), Ok(3));
    assert_eq!(buf, [3, 4, 5, 0, 0, 0, 0, 0]);
    let mut buf = [9u8; 2];
    assert_eq!(patch.read(5, &mut buf), Ok(0));
    assert_eq!(patch.read(u64::MAX, &mut buf), Ok(0));
    assert_eq!(buf, [9, 9]);
    assert_eq!(patch.read(4, &mut buf[..0]), Ok(0));
}

#[test]
fn patches_compare_by_offset_then_length() {
    let short = Patch::new(10, vec![1u8]).unwrap();
    let long = Patch::new(10, vec![0u8, 0]).unwrap();
    let later = Patch::new(11, vec![0u8]).unwrap();
    let other = Patch::new(10, vec![7u8]).unwrap();
    assert!(short < long);
    assert!(long < later);
    assert!(short < later);
    assert!(later > long);
    assert!(short <= other);
    assert!(short >= other);
    assert!(short.id() < long.id());
    assert!(long.id() < later.id());
    // the content is not compared
    assert!(short == other);
    assert!(short != long);
    assert!(short.clone() == short);
    assert_eq!(short.id(), other.id());
}
