use memoverlay::{MemOverlay, SeekFrom};

/// Reads the overlay from its cursor to its end, as a copy into a sink does.
fn copy_out(overlay: &mut MemOverlay, output: &mut Vec<u8>) {
    let mut buf = [0u8; 8192];
    loop {
        let bytes = overlay.read(&mut buf).unwrap();
        if bytes == 0 {
            break;
        }
        output.extend_from_slice(&buf[..bytes]);
    }
}

/// Fills `dst` from the overlay, and panics where the data ends before it is full.
fn read_exact(overlay: &mut MemOverlay, dst: &mut [u8]) {
    let mut filled = 0;
    while filled < dst.len() {
        let bytes = overlay.read(&mut dst[filled..]).unwrap();
        if bytes == 0 {
            panic!("failed to fill whole buffer");
        }
        filled += bytes;
    }
}

/// test what happens without patches
#[test]
fn test_range0() {
    let input = [0, 1, 2, 3, 4, 5, 6, 7, 8, 9];
    let expected = [0, 1, 2, 3, 4, 5, 6, 7, 8, 9];
    let mut overlay = MemOverlay::from(input.to_vec());
    let mut output = Vec::new();
    copy_out(&mut overlay, &mut output);
    assert_eq!(output.as_slice(), &expected);
}

/// test a single one byte patch
#[test]
fn test_range1() {
    let input = [0, 1, 2, 3, 4, 5, 6, 7, 8, 9];
    let expected = [0, 1, 2, 3, 255, 254, 6, 7, 8, 9];
    let mut overlay = MemOverlay::from(input.to_vec());
    overlay.add_bytes_at(4, &[255, 254]).unwrap();
    let mut output = Vec::new();
    copy_out(&mut overlay, &mut output);
    assert_eq!(output.as_slice(), &expected);

    let mut dst = [0; 4];
    overlay.seek(SeekFrom::Start(2)).unwrap();
    read_exact(&mut overlay, &mut dst);
    assert_eq!(dst, [2, 3, 255, 254]);

    let mut dst = [0; 4];
    overlay.seek(SeekFrom::Start(0)).unwrap();
    read_exact(&mut overlay, &mut dst);
    assert_eq!(dst, [0, 1, 2, 3]);

    // double patch
    let expected = [0, 1, 2, 3, 0xcc, 254, 6, 7, 8, 9];
    overlay.add_bytes_at(4, &[0xcc]).unwrap();
    let mut output = Vec::new();
    overlay.seek(SeekFrom::Start(0)).unwrap();
    copy_out(&mut overlay, &mut output);
    assert_eq!(output.as_slice(), &expected);
}

/// test a patch that starts within the base but reaches over the end
#[test]
fn test_range2() {
    let input = [0, 1, 2, 3, 4, 5, 6, 7, 8, 9];
    let expected = [0, 1, 2, 3, 4, 5, 6, 7, 8, 254, 255];
    let mut overlay = MemOverlay::from(input.to_vec());
    overlay.add_bytes_at(9, &[254, 255]).unwrap();
    let mut output = Vec::new();
    copy_out(&mut overlay, &mut output);
    assert_eq!(output.as_slice(), &expected);
}
