use shades::record::Screenshot;
use shades::render::{decide_invert, Renderer, Viewport};

fn solid_source(width: u32, height: u32, byte: u8) -> Screenshot {
    Screenshot { width, height, data: vec![byte; (4 * width * height) as usize] }
}

fn viewport(tw: usize, th: usize, ox: i32, oy: i32) -> Viewport {
    Viewport { target_width: tw, target_height: th, offset_x: ox, offset_y: oy }
}

fn fresh_frame(tw: usize, th: usize) -> Vec<u8> {
    let mut frame = vec![0u8; 4 * tw * th];
    Renderer::new().handle_resize(&mut frame);
    frame
}

#[test]
fn bright_source_renders_inverted() {
    // Source 100x100, every byte 200: mean 200 > 150, so every output
    // pixel is 255 - 200 = 55 per colour channel. The first draw's
    // overlay mask is zero, so the overlay block is untouched too.
    let pix = solid_source(100, 100, 200);
    let mut frame = fresh_frame(50, 50);
    Renderer::new().draw(&viewport(50, 50, 0, 0), &pix, &mut frame);
    for p in 0..50 * 50 {
        assert_eq!(frame[4 * p], 55);
        assert_eq!(frame[4 * p + 1], 55);
        assert_eq!(frame[4 * p + 2], 55);
        assert_eq!(frame[4 * p + 3], 0xFF, "alpha untouched");
    }
}

#[test]
fn dark_source_renders_unchanged() {
    // Source 100x100, every byte 50: mean 50 <= 150, bytes pass
    // through (the channel swap is invisible on a solid grey).
    let pix = solid_source(100, 100, 50);
    let mut frame = fresh_frame(50, 50);
    Renderer::new().draw(&viewport(50, 50, 0, 0), &pix, &mut frame);
    for p in 0..50 * 50 {
        assert_eq!(frame[4 * p], 50);
        assert_eq!(frame[4 * p + 1], 50);
        assert_eq!(frame[4 * p + 2], 50);
        assert_eq!(frame[4 * p + 3], 0xFF);
    }
}

#[test]
fn channels_are_swapped() {
    // One source pixel with distinct channel bytes (10, 20, 30):
    // destination channel 0 reads source byte 2 and vice versa.
    let pix = Screenshot { width: 1, height: 1, data: vec![10, 20, 30, 255] };
    let mut frame = fresh_frame(1, 1);
    Renderer::new().draw(&viewport(1, 1, 0, 0), &pix, &mut frame);
    assert_eq!(&frame[0..3], &[30, 20, 10]);
}

#[test]
fn oversized_viewport_clamps_to_last_pixel() {
    // Source 3x3, pixel p carries bytes (10p, 10p+1, 10p+2). A 5x5
    // viewport reads past the source on the right and bottom: those
    // destination pixels repeat the clamped source pixel instead of
    // failing.
    let mut data = Vec::new();
    for p in 0..9u8 {
        data.extend_from_slice(&[10 * p, 10 * p + 1, 10 * p + 2, 255]);
    }
    let pix = Screenshot { width: 3, height: 3, data };
    let mut frame = fresh_frame(5, 5);
    Renderer::new().draw(&viewport(5, 5, 0, 0), &pix, &mut frame);
    // In-range destination pixel (1, 2) samples source pixel 5.
    let p = 1 * 5 + 2;
    assert_eq!(&frame[4 * p..4 * p + 3], &[52, 51, 50]);
    // Destination pixel (1, 4): raw index 1*3 + 4 = 7, still in range.
    let p = 1 * 5 + 4;
    assert_eq!(&frame[4 * p..4 * p + 3], &[72, 71, 70]);
    // Destination pixel (4, 4): raw index 4*3 + 4 = 16, clamped to the
    // last source pixel, 8.
    let p = 4 * 5 + 4;
    assert_eq!(&frame[4 * p..4 * p + 3], &[82, 81, 80]);
}

#[test]
fn negative_offsets_clamp_to_first_pixel() {
    let mut data = Vec::new();
    for p in 0..9u8 {
        data.extend_from_slice(&[10 * p, 10 * p + 1, 10 * p + 2, 255]);
    }
    let pix = Screenshot { width: 3, height: 3, data };
    let mut frame = fresh_frame(2, 2);
    Renderer::new().draw(&viewport(2, 2, -100, -100), &pix, &mut frame);
    // Every raw index is negative, so every pixel clamps to source
    // pixel 0.
    for p in 0..4 {
        assert_eq!(&frame[4 * p..4 * p + 3], &[2, 1, 0]);
    }
}

#[test]
fn zero_sized_viewport_is_a_no_op() {
    let pix = solid_source(2, 2, 200);
    let mut frame = vec![1, 2, 3, 4, 5, 6, 7];
    let before = frame.clone();
    let mut renderer = Renderer::new();
    renderer.draw(&viewport(0, 5, 0, 0), &pix, &mut frame);
    assert_eq!(frame, before);
    renderer.draw(&viewport(5, 0, 0, 0), &pix, &mut frame);
    assert_eq!(frame, before);
}

#[test]
fn overlay_xors_the_origin_block() {
    // A 12x12 viewport is large enough for the 10x10 overlay block.
    // Draw 1 uses counter 0 (mask 0), draw 2 counter 1 (mask 16),
    // draw 3 counter 2 (mask 32). Only the first byte of each block
    // pixel is touched.
    let pix = solid_source(1, 1, 100);
    let mut renderer = Renderer::new();
    let mut frame = fresh_frame(12, 12);
    renderer.draw(&viewport(12, 12, 0, 0), &pix, &mut frame);
    assert_eq!(frame[0], 100);
    renderer.draw(&viewport(12, 12, 0, 0), &pix, &mut frame);
    assert_eq!(frame[0], 100 ^ 16);
    assert_eq!(frame[1], 100);
    // Pixel (0, 11) lies right of the block: untouched by the mask.
    assert_eq!(frame[4 * 11], 100);
    // Pixel (9, 9) is the block's far corner; (10, 9) is below it.
    assert_eq!(frame[4 * (9 * 12 + 9)], 100 ^ 16);
    assert_eq!(frame[4 * (10 * 12 + 9)], 100);
    renderer.draw(&viewport(12, 12, 0, 0), &pix, &mut frame);
    assert_eq!(frame[0], 100 ^ 32);
}

#[test]
fn overlay_counter_oscillates() {
    // The mask follows the counter 0, 1, ..., 15, 14, ..., 0, 1:
    // shifted left by four and XORed onto a 100-valued byte.
    let pix = solid_source(1, 1, 100);
    let mut renderer = Renderer::new();
    let mut frame = fresh_frame(11, 11);
    let mut masks = Vec::new();
    for _ in 0..32 {
        renderer.draw(&viewport(11, 11, 0, 0), &pix, &mut frame);
        masks.push(frame[0] ^ 100);
    }
    let mut expected = Vec::new();
    for cnt in (0..=15).chain((1..=14).rev()).chain(0..=1) {
        expected.push((((cnt % 16) << 4) & 0xFF) as u8);
    }
    assert_eq!(masks, expected);
}

#[test]
fn small_viewport_gets_no_overlay() {
    // 10x10 is not strictly larger than the block: no overlay.
    let pix = solid_source(1, 1, 100);
    let mut renderer = Renderer::new();
    let mut frame = fresh_frame(10, 10);
    renderer.draw(&viewport(10, 10, 0, 0), &pix, &mut frame);
    renderer.draw(&viewport(10, 10, 0, 0), &pix, &mut frame);
    assert_eq!(frame[0], 100);
}

#[test]
fn invert_threshold_is_strict() {
    // Mean exactly 150 does not invert; just above does.
    let at = solid_source(4, 4, 150);
    assert!(!decide_invert(&at, 2, 2, 0, 0));
    let above = solid_source(4, 4, 151);
    assert!(decide_invert(&above, 2, 2, 0, 0));
}

#[test]
fn invert_mean_counts_out_of_range_area_as_zero() {
    // Viewport 4x4 over a bright 2x2 source at offset (0, 0): only a
    // quarter of the destination area samples real bytes, and the
    // divisor is the whole destination area, so the mean dilutes:
    // sum = 2*2*4*255, mean = 255/4 <= 150: no invert.
    let pix = solid_source(2, 2, 255);
    assert!(!decide_invert(&pix, 4, 4, 0, 0));
}

#[test]
fn handle_resize_forces_alpha_opaque() {
    let renderer = Renderer::new();
    let mut frame = vec![1, 2, 3, 4, 5, 6, 7, 8, 9];
    renderer.handle_resize(&mut frame);
    assert_eq!(frame, vec![1, 2, 3, 0xFF, 5, 6, 7, 0xFF, 9]);
}

#[test]
fn invert_decision_is_monotonic_in_brightness() {
    // Raising every sampled byte while the region stays fixed never
    // turns the invert effect off.
    let steps: [u8; 4] = [151, 180, 220, 255];
    let mut last = None;
    for &b in &steps {
        let inv = decide_invert(&solid_source(8, 8, b), 4, 4, 1, 1);
        if let Some(prev) = last {
            assert!(!(prev && !inv), "effect flipped off as bytes grew");
        }
        last = Some(inv);
    }
    assert_eq!(last, Some(true));
}
