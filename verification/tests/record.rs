use shades::record::{pack_rows, Screenshot};

/// Builds a mapped-surface image: `height` rows of `row_pitch` bytes,
/// the first `4 * width` of each row being pixel data, the rest
/// padding.
fn padded_raw(width: u32, height: u32, row_pitch: u32) -> Vec<u8> {
    let mut raw = vec![0xEEu8; (height * row_pitch) as usize];
    for r in 0..height {
        for k in 0..4 * width {
            raw[(r * row_pitch + k) as usize] = (r * 100 + k) as u8;
        }
    }
    raw
}

#[test]
fn readback_buffer_has_four_bytes_per_pixel() {
    let raw = padded_raw(3, 2, 16);
    let shot = Screenshot::from_raw(&raw, 3, 2, 16);
    assert_eq!(shot.width, 3);
    assert_eq!(shot.height, 2);
    assert_eq!(shot.data.len(), 4 * 3 * 2);
}

#[test]
fn readback_strips_row_padding() {
    let raw = padded_raw(3, 2, 16);
    let shot = Screenshot::from_raw(&raw, 3, 2, 16);
    for r in 0..2u32 {
        for k in 0..12u32 {
            assert_eq!(shot.data[(r * 12 + k) as usize], (r * 100 + k) as u8);
        }
    }
    // No padding byte leaked into the packed buffer.
    assert!(shot.data.iter().all(|&b| b != 0xEE));
}

#[test]
fn readback_with_tight_pitch_is_identity() {
    let raw: Vec<u8> = (0u8..24).collect();
    let shot = Screenshot::from_raw(&raw, 2, 3, 8);
    assert_eq!(shot.data, raw);
}

#[test]
fn readback_reuses_the_packed_buffer() {
    let mut buffer = vec![9u8; 100];
    let raw = padded_raw(2, 2, 12);
    pack_rows(&raw, 2, 2, 12, &mut buffer);
    assert_eq!(buffer.len(), 16);
    let raw2 = padded_raw(1, 1, 4);
    pack_rows(&raw2, 1, 1, 4, &mut buffer);
    assert_eq!(buffer.len(), 4);
    assert_eq!(buffer, vec![0, 1, 2, 3]);
}

#[test]
fn readback_of_empty_frame() {
    let raw: Vec<u8> = Vec::new();
    let shot = Screenshot::from_raw(&raw, 0, 0, 0);
    assert_eq!(shot.data.len(), 0);
}

#[test]
fn default_frame_is_empty() {
    let shot = shades::record::Screenshot::default();
    assert_eq!((shot.width, shot.height), (0, 0));
    assert!(shot.data.is_empty());
}
