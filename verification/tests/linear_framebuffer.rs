use kermol::linear_framebuffer::{LinearFramebuffer, LinearFramebufferError};

fn screen(width: u64, height: u64) -> LinearFramebuffer {
    let pixels: Vec<u32> = vec![0; (width * height) as usize];
    match LinearFramebuffer::new(width, height, 32, pixels) {
        Ok(fb) => fb,
        Err(_) => panic!("a 32-bit framebuffer is supported"),
    }
}

#[test]
fn only_32_bit_pixels_are_supported() {
    let r = LinearFramebuffer::new(4, 4, 24, vec![0; 16]);
    assert_eq!(r.err(), Some(LinearFramebufferError::UnsupportedPixelDepth));
    let fb = screen(4, 3);
    assert_eq!(fb.dimensions, (4, 3));
    assert_eq!(fb.buffer().len(), 12);
}

#[test]
fn plot_sets_one_pixel() {
    let mut fb = screen(4, 3);
    fb.plot(1, 2, 0xAABBCC);
    assert_eq!(fb.buffer()[2 * 4 + 1], 0xAABBCC);
    let set: usize = fb.buffer().iter().filter(|p| **p != 0).count();
    assert_eq!(set, 1);
}

#[test]
fn clear_fills_the_screen() {
    let mut fb = screen(3, 2);
    fb.plot(0, 0, 5);
    fb.clear(7);
    assert!(fb.buffer().iter().all(|p| *p == 7));
}

#[test]
fn scroll_moves_rows_up() {
    let mut fb = screen(2, 3);
    let mut i: u32 = 0;
    while i < 6 {
        fb.plot((i % 2) as usize, (i / 2) as usize, i + 1);
        i += 1;
    }
    fb.scroll(1, 9);
    assert_eq!(fb.buffer().clone(), vec![3, 4, 5, 6, 9, 9]);
}

#[test]
fn scroll_by_zero_keeps_the_screen() {
    let mut fb = screen(2, 2);
    fb.plot(1, 1, 4);
    fb.scroll(0, 9);
    assert_eq!(fb.buffer().clone(), vec![0, 0, 0, 4]);
}

#[test]
fn scroll_by_the_height_clears_the_screen() {
    let mut fb = screen(2, 2);
    fb.plot(1, 1, 4);
    fb.scroll(2, 9);
    assert_eq!(fb.buffer().clone(), vec![9, 9, 9, 9]);
}

#[test]
fn glyph_draws_its_bits_most_significant_first() {
    let mut fb = screen(16, 4);
    let glyph = [0b1000_0001u8, 0b0100_0000u8];
    assert_eq!(fb.plot_glyph(4, 1, 8, 2, &glyph, 1, 2), Ok(()));
    let b = fb.buffer();
    assert_eq!(b[16 + 4], 1);
    assert_eq!(b[16 + 5], 2);
    assert_eq!(b[16 + 11], 1);
    assert_eq!(b[2 * 16 + 4], 2);
    assert_eq!(b[2 * 16 + 5], 1);
    assert_eq!(b[2 * 16 + 11], 2);
    // Outside the cell nothing changes.
    assert_eq!(b[16 + 3], 0);
    assert_eq!(b[16 + 12], 0);
    assert_eq!(b[3 * 16 + 4], 0);
}

#[test]
fn glyph_rows_follow_the_cell_width() {
    let mut fb = screen(8, 4);
    let glyph = [0xF0u8];
    assert_eq!(fb.plot_glyph(0, 0, 4, 2, &glyph, 1, 2), Ok(()));
    assert_eq!(fb.buffer()[0..4].to_vec(), vec![1, 1, 1, 1]);
    assert_eq!(fb.buffer()[8..12].to_vec(), vec![2, 2, 2, 2]);
    assert_eq!(fb.buffer()[4], 0);
}

#[test]
fn glyph_outside_the_screen_is_an_error() {
    let mut fb = screen(8, 8);
    let glyph = [0xFFu8; 8];
    assert_eq!(fb.plot_glyph(4, 0, 8, 8, &glyph, 1, 2), Err(LinearFramebufferError::OutOfBounds));
    assert_eq!(fb.plot_glyph(0, 1, 8, 8, &glyph, 1, 2), Err(LinearFramebufferError::OutOfBounds));
    assert!(fb.buffer().iter().all(|p| *p == 0));
}
