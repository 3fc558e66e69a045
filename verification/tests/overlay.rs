use memoverlay::{MemOverlay, OverlayError, SeekFrom};

/// Reads the overlay from its cursor to its end and appends the text to `text`.
fn read_to_string(overlay: &mut MemOverlay, text: &mut String) -> usize {
    let mut bytes = Vec::new();
    let mut buf = [0u8; 32];
    loop {
        let count = overlay.read(&mut buf).unwrap();
        if count == 0 {
            break;
        }
        bytes.extend_from_slice(&buf[..count]);
    }
    text.push_str(std::str::from_utf8(&bytes).unwrap());
    bytes.len()
}

/// Reads the whole overlay from its start, in chunks of `step` bytes.
fn read_all(overlay: &mut MemOverlay, step: usize) -> Vec<u8> {
    overlay.seek(SeekFrom::Start(0)).unwrap();
    let mut bytes = Vec::new();
    let mut buf = vec![0u8; step];
    loop {
        let count = overlay.read(&mut buf).unwrap();
        if count == 0 {
            break;
        }
        bytes.extend_from_slice(&buf[..count]);
    }
    bytes
}

#[test]
fn double_mod_single_byte() {
    let message1 = "hello, world!";
    let mut overlay = MemOverlay::from(message1.as_bytes().to_vec());
    overlay.add_bytes_at(1, "a".as_bytes()).unwrap();
    overlay.add_bytes_at(1, "o".as_bytes()).unwrap();

    let mut message2 = String::new();
    let _ = read_to_string(&mut overlay, &mut message2);
    assert_eq!(message2, "hollo, world!");
}

#[test]
fn double_mod_multiple_bytes() {
    let message1 = "hello, world!";
    let mut overlay = MemOverlay::from(message1.as_bytes().to_vec());
    overlay.add_bytes_at(7, "peter".as_bytes()).unwrap();
    overlay.add_bytes_at(7, "claus".as_bytes()).unwrap();

    let mut message2 = String::new();
    let _ = read_to_string(&mut overlay, &mut message2);
    assert_eq!(message2, "hello, claus!");
}

#[test]
fn double_mod_overlapping1() {
    let message1 = "hello, world!";
    let mut overlay = MemOverlay::from(message1.as_bytes().to_vec());
    overlay.add_bytes_at(3, "XXXX".as_bytes()).unwrap();
    overlay.add_bytes_at(5, "YYYY".as_bytes()).unwrap();

    let mut message2 = String::new();
    let _ = read_to_string(&mut overlay, &mut message2);
    assert_eq!(message2, "helXXYYYYrld!");
}

#[test]
fn double_mod_overlapping2() {
    let message1 = "hello, world!";
    let mut overlay = MemOverlay::from(message1.as_bytes().to_vec());
    overlay.add_bytes_at(5, "YYYY".as_bytes()).unwrap();
    overlay.add_bytes_at(3, "XXXX".as_bytes()).unwrap();

    let mut message2 = String::new();
    let _ = read_to_string(&mut overlay, &mut message2);
    assert_eq!(message2, "helXXXXYYrld!");
}

#[test]
fn doc_test() {
    let message1 = "hello, world!";
    let mut overlay = MemOverlay::from(message1.as_bytes().to_vec());
    overlay.add_bytes_at(7, "peter".as_bytes()).unwrap();

    let mut message2 = String::new();
    let _ = read_to_string(&mut overlay, &mut message2);
    overlay.seek(SeekFrom::Start(0)).unwrap();

    assert_eq!(message2, "hello, peter!");

    overlay.add_bytes_at(1, "a".as_bytes()).unwrap();
    let mut message3 = String::new();
    let _ = read_to_string(&mut overlay, &mut message3);
    overlay.seek(SeekFrom::Start(0)).unwrap();
    assert_eq!(message3, "hallo, peter!");

    overlay.add_bytes_at(1, "o".as_bytes()).unwrap();
    overlay.add_bytes_at(5, "w".as_bytes()).unwrap();
    let mut message4 = String::new();
    let _ = read_to_string(&mut overlay, &mut message4);
    assert_eq!(message4, "hollow peter!");
}

#[test]
fn unpatched_overlay_reads_as_its_base() {
    let base: Vec<u8> = (0..=255u8).collect();
    let mut overlay = MemOverlay::from(base.clone());
    for step in [1, 2, 7, 256, 1000] {
        assert_eq!(read_all(&mut overlay, step), base);
    }
}

#[test]
fn single_patch_within_the_base_is_a_splice() {
    let base = b"0123456789".to_vec();
    let mut overlay = MemOverlay::from(base.clone());
    assert_eq!(overlay.add_bytes_at(3, b"abc"), Ok(3));
    let mut expected = base[..3].to_vec();
    expected.extend_from_slice(b"abc");
    expected.extend_from_slice(&base[6..]);
    assert_eq!(expected, b"012abc6789");
    for step in [1, 2, 3, 4, 64] {
        assert_eq!(read_all(&mut overlay, step), expected);
    }
}

#[test]
fn patch_over_the_end_lengthens_the_data() {
    let mut overlay = MemOverlay::from(b"0123".to_vec());
    assert_eq!(overlay.last_valid_position(), 3);
    assert_eq!(overlay.add_bytes_at(3, b"abc"), Ok(3));
    assert_eq!(overlay.last_base_position(), 3);
    assert_eq!(overlay.last_overlay_position(), Some(5));
    assert_eq!(overlay.last_valid_position(), 5);
    assert_eq!(read_all(&mut overlay, 2), b"012abc");
    // the data now reaches to 5, so a patch may begin there
    assert_eq!(overlay.add_bytes_at(5, b"xyz"), Ok(3));
    assert_eq!(overlay.last_valid_position(), 7);
    assert_eq!(read_all(&mut overlay, 5), b"012abxyz");
}

#[test]
fn patch_beyond_the_last_valid_position_is_refused() {
    let mut overlay = MemOverlay::from(b"0123".to_vec());
    assert_eq!(overlay.add_bytes_at(4, b"abc"), Err(OverlayError::SeekOutOfRange));
    assert_eq!(overlay.add_bytes_at(4, b""), Err(OverlayError::SeekOutOfRange));
    assert_eq!(overlay.last_overlay_position(), None);
    assert_eq!(read_all(&mut overlay, 8), b"0123");
}

#[test]
fn empty_patch_is_refused_and_nothing_changes() {
    let mut overlay = MemOverlay::from(b"0123".to_vec());
    overlay.seek(SeekFrom::Start(2)).unwrap();
    assert_eq!(overlay.add_bytes_at(1, b""), Err(OverlayError::EmptyPatch));
    assert_eq!(overlay.write(b""), Err(OverlayError::EmptyPatch));
    assert_eq!(overlay.stream_position(), 2);
    assert_eq!(overlay.last_overlay_position(), None);
    assert_eq!(overlay.to_string(), "MemOverlay with 0 layers and 4 bytes of base content");
}

#[test]
fn disjoint_patches_show_in_either_order() {
    let base = b"hello, world!".to_vec();
    let mut one = MemOverlay::from(base.clone());
    one.add_bytes_at(0, b"J").unwrap();
    one.add_bytes_at(7, b"W").unwrap();
    let mut other = MemOverlay::from(base);
    other.add_bytes_at(7, b"W").unwrap();
    other.add_bytes_at(0, b"J").unwrap();
    assert_eq!(read_all(&mut one, 4), b"Jello, World!");
    assert_eq!(read_all(&mut other, 4), b"Jello, World!");
    // patches that do not overlap share one layer
    assert_eq!(one.to_string(), "MemOverlay with 1 layers and 13 bytes of base content");
    assert_eq!(other.to_string(), "MemOverlay with 1 layers and 13 bytes of base content");
}

#[test]
fn same_span_written_twice_reads_the_second() {
    let mut overlay = MemOverlay::from(b"hello, world!".to_vec());
    overlay.add_bytes_at(7, b"peter").unwrap();
    overlay.add_bytes_at(7, b"claus").unwrap();
    assert_eq!(read_all(&mut overlay, 3), b"hello, claus!");
    // the second patch could not join the layer of the first
    assert_eq!(overlay.to_string(), "MemOverlay with 2 layers and 13 bytes of base content");
}

#[test]
fn overlapping_patches_favour_the_later_whichever_is_longer() {
    let mut overlay = MemOverlay::from(b"0123456789".to_vec());
    overlay.add_bytes_at(2, b"AAAAAA").unwrap();
    overlay.add_bytes_at(4, b"b").unwrap();
    assert_eq!(read_all(&mut overlay, 3), b"01AAbAAA89");

    let mut overlay = MemOverlay::from(b"0123456789".to_vec());
    overlay.add_bytes_at(4, b"b").unwrap();
    overlay.add_bytes_at(2, b"AAAAAA").unwrap();
    assert_eq!(read_all(&mut overlay, 3), b"01AAAAAA89");
}

#[test]
fn patch_joins_the_front_most_layer_that_admits_it() {
    let mut overlay = MemOverlay::from(b"0123456789".to_vec());
    overlay.add_bytes_at(3, b"aaaa").unwrap();
    overlay.add_bytes_at(5, b"bbbb").unwrap();
    assert_eq!(overlay.to_string(), "MemOverlay with 2 layers and 10 bytes of base content");
    // overlaps the front layer only: it joins the layer behind, and the
    // front layer still decides where the two meet
    overlay.add_bytes_at(8, b"cc").unwrap();
    assert_eq!(overlay.to_string(), "MemOverlay with 2 layers and 10 bytes of base content");
    assert_eq!(read_all(&mut overlay, 4), b"012aabbbbc");
    // overlaps both layers: a new layer at the front
    overlay.add_bytes_at(6, b"ddd").unwrap();
    assert_eq!(overlay.to_string(), "MemOverlay with 3 layers and 10 bytes of base content");
    assert_eq!(read_all(&mut overlay, 4), b"012aabdddc");
}

#[test]
fn write_puts_a_patch_at_the_cursor_and_leaves_the_cursor() {
    let mut overlay = MemOverlay::from(b"0123456789".to_vec());
    overlay.seek(SeekFrom::Start(8)).unwrap();
    assert_eq!(overlay.write(b"abcd"), Ok(4));
    assert_eq!(overlay.stream_position(), 8);
    assert_eq!(overlay.flush(), Ok(()));
    let mut buf = [0u8; 16];
    assert_eq!(overlay.read(&mut buf), Ok(4));
    assert_eq!(&buf[..4], b"abcd");
    assert_eq!(overlay.stream_position(), 12);
    // at the end of the data a write appends
    assert_eq!(overlay.write(b"!"), Ok(1));
    assert_eq!(read_all(&mut overlay, 16), b"01234567abcd!");
}

#[test]
fn read_stops_at_the_end_of_the_buffer_and_of_the_data() {
    let mut overlay = MemOverlay::from(b"hello, world!".to_vec());
    overlay.add_bytes_at(7, b"peter").unwrap();
    let mut buf = [b'.'; 4];
    assert_eq!(overlay.read(&mut buf), Ok(4));
    assert_eq!(&buf, b"hell");
    assert_eq!(overlay.read(&mut buf[..0]), Ok(0));
    let mut buf = [b'.'; 12];
    assert_eq!(overlay.read(&mut buf), Ok(9));
    assert_eq!(&buf, b"o, peter!...");
    assert_eq!(overlay.stream_position(), 13);
    assert_eq!(overlay.read(&mut buf), Ok(0));
    assert_eq!(&buf, b"o, peter!...");
}

#[test]
fn empty_base_holds_what_is_written() {
    let mut overlay = MemOverlay::from(Vec::new());
    assert_eq!(overlay.last_base_position(), 0);
    assert_eq!(overlay.last_valid_position(), 0);
    assert_eq!(overlay.seek(SeekFrom::Start(0)), Ok(0));
    let mut buf = [0u8; 4];
    assert_eq!(overlay.read(&mut buf), Ok(0));
    assert_eq!(overlay.seek(SeekFrom::Start(1)), Err(OverlayError::SeekOutOfRange));
    assert_eq!(overlay.add_bytes_at(0, b"ab"), Ok(2));
    assert_eq!(overlay.last_valid_position(), 1);
    assert_eq!(read_all(&mut overlay, 4), b"ab");
}

#[test]
fn overlay_starts_at_a_cursor_within_the_base() {
    let mut overlay = MemOverlay::new(b"0123".to_vec(), 2).unwrap();
    assert_eq!(overlay.stream_position(), 2);
    let mut buf = [0u8; 4];
    assert_eq!(overlay.read(&mut buf), Ok(2));
    assert_eq!(&buf[..2], b"23");
    assert!(MemOverlay::new(b"0123".to_vec(), 4).is_ok());
    assert_eq!(MemOverlay::new(b"0123".to_vec(), 5).err(), Some(OverlayError::SeekOutOfRange));
}

#[test]
fn clone_copies_patches_and_cursor() {
    let mut overlay = MemOverlay::from(b"0123456789".to_vec());
    overlay.add_bytes_at(2, b"ab").unwrap();
    overlay.seek(SeekFrom::Start(3)).unwrap();
    let mut copy = overlay.clone();
    overlay.add_bytes_at(2, b"xy").unwrap();
    assert_eq!(copy.stream_position(), 3);
    assert_eq!(read_all(&mut copy, 4), b"01ab456789");
    assert_eq!(read_all(&mut overlay, 4), b"01xy456789");
}

#[test]
fn summary_names_layers_and_base_length() {
    let mut overlay = MemOverlay::from(b"hello, world!".to_vec());
    assert_eq!(overlay.to_string(), "MemOverlay with 0 layers and 13 bytes of base content");
    overlay.add_bytes_at(1, b"a").unwrap();
    overlay.add_bytes_at(1, b"o").unwrap();
    assert_eq!(overlay.to_string(), "MemOverlay with 2 layers and 13 bytes of base content");

    let empty = MemOverlay::from(Vec::new());
    assert_eq!(empty.to_string(), "MemOverlay with 0 layers and 0 bytes of base content");

    let mut large = MemOverlay::from(vec![0u8; 1_203_450]);
    for _ in 0..107 {
        large.add_bytes_at(9, b"x").unwrap();
    }
    assert_eq!(large.to_string(), "MemOverlay with 107 layers and 1203450 bytes of base content");
}
