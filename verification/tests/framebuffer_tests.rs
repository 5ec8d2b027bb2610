use snake_game::color::Color;
use snake_game::framebuffer::{Framebuffer, Glyph, blend_colors};

fn pixel(fb: &Framebuffer, x: usize, y: usize) -> Color {
    fb.buffer[y * fb.width + x]
}

#[test]
fn new_framebuffer_is_black_with_white_drawing_color() {
    let fb = Framebuffer::new(4, 3);
    assert_eq!(fb.width, 4);
    assert_eq!(fb.height, 3);
    assert_eq!(fb.buffer.len(), 12);
    for p in &fb.buffer {
        assert_eq!(*p, Color::new(0, 0, 0));
    }
    assert_eq!(fb.background_color, Color::new(0, 0, 0));
    assert_eq!(fb.current_color, Color::new(255, 255, 255));
}

#[test]
fn point_with_color_writes_in_bounds() {
    let mut fb = Framebuffer::new(4, 4);
    let red = Color::new(255, 0, 0);
    fb.point_with_color(2, 1, red);
    assert_eq!(pixel(&fb, 2, 1), red);
    assert_eq!(pixel(&fb, 1, 2), Color::new(0, 0, 0));
}

#[test]
fn point_with_color_ignores_out_of_bounds() {
    let mut fb = Framebuffer::new(4, 4);
    let before = fb.buffer.clone();
    fb.point_with_color(4, 0, Color::new(255, 0, 0));
    fb.point_with_color(0, 4, Color::new(255, 0, 0));
    fb.point_with_color(1000, 1000, Color::new(255, 0, 0));
    assert_eq!(fb.buffer, before);
}

#[test]
fn clear_paints_every_pixel_with_background() {
    let mut fb = Framebuffer::new(5, 5);
    fb.draw_rectangle(0, 0, 3, 3, Color::new(10, 20, 30));
    fb.set_background_color(Color::new(9, 9, 9));
    fb.clear();
    for p in &fb.buffer {
        assert_eq!(*p, Color::new(9, 9, 9));
    }
}

#[test]
fn set_background_color_does_not_repaint() {
    let mut fb = Framebuffer::new(2, 2);
    fb.set_background_color(Color::new(7, 7, 7));
    assert_eq!(pixel(&fb, 0, 0), Color::new(0, 0, 0));
}

#[test]
fn draw_rectangle_fills_requested_region() {
    let mut fb = Framebuffer::new(6, 6);
    let c = Color::new(1, 2, 3);
    fb.draw_rectangle(1, 2, 3, 2, c);
    for x in 0..6 {
        for y in 0..6 {
            let inside = x >= 1 && x < 4 && y >= 2 && y < 4;
            if inside {
                assert_eq!(pixel(&fb, x, y), c);
            } else {
                assert_eq!(pixel(&fb, x, y), Color::new(0, 0, 0));
            }
        }
    }
}

#[test]
fn draw_rectangle_clips_at_the_edge() {
    let mut fb = Framebuffer::new(8, 8);
    let c = Color::new(200, 100, 50);
    fb.draw_rectangle(7, 7, 10, 10, c);
    for x in 0..8 {
        for y in 0..8 {
            if x == 7 && y == 7 {
                assert_eq!(pixel(&fb, x, y), c);
            } else {
                assert_eq!(pixel(&fb, x, y), Color::new(0, 0, 0));
            }
        }
    }
}

#[test]
fn is_point_set_matches_current_color_only() {
    let mut fb = Framebuffer::new(4, 4);
    fb.set_current_color(0xFF0000);
    fb.point_with_color(2, 2, Color::new(255, 0, 0));
    assert!(fb.is_point_set(2, 2));
    assert!(!fb.is_point_set(1, 1));
    assert!(!fb.is_point_set(4, 2));
    assert!(!fb.is_point_set(2, 4));
}

#[test]
fn to_u32_buffer_packs_in_order() {
    let mut fb = Framebuffer::new(2, 1);
    fb.point_with_color(0, 0, Color::new(1, 2, 3));
    let packed = fb.to_u32_buffer();
    assert_eq!(packed, vec![0x010203, 0x000000]);
}

#[test]
fn blend_colors_mixes_channels_with_truncation() {
    // Full alpha keeps the incoming color, zero alpha the existing one.
    assert_eq!(blend_colors(0x123456, 0xABCDEF, 255), 0xABCDEF);
    assert_eq!(blend_colors(0x123456, 0xABCDEF, 0), 0x123456);
    // (255 * 155) / 255 = 155 for red, (255 * 100) / 255 = 100 for blue.
    assert_eq!(blend_colors(0xFF0000, 0x0000FF, 100), 0x9B0064);
    // Integer division truncates: (1 * 254 + 2 * 1) / 255 = 1.
    assert_eq!(blend_colors(0x010101, 0x020202, 1), 0x010101);
}

#[test]
fn draw_glyph_blends_coverage_over_pixels() {
    let mut fb = Framebuffer::new(4, 4);
    let glyph = Glyph { off_x: 0, off_y: 0, width: 2, height: 1, coverage: vec![255, 128] };
    fb.draw_glyph(1, 1, &glyph, Color::new(255, 255, 255));
    // Full coverage paints the text color outright.
    assert_eq!(pixel(&fb, 1, 1), Color::new(255, 255, 255));
    // Half coverage blends over black: (0 * 127 + 255 * 128) / 255 = 128.
    assert_eq!(pixel(&fb, 2, 1), Color::new(128, 128, 128));
    // Uncovered pixels stay black.
    assert_eq!(pixel(&fb, 3, 1), Color::new(0, 0, 0));
    assert_eq!(pixel(&fb, 1, 2), Color::new(0, 0, 0));
}

#[test]
fn draw_glyphs_composites_in_order() {
    let mut fb = Framebuffer::new(3, 1);
    let a = Glyph { off_x: 0, off_y: 0, width: 2, height: 1, coverage: vec![255, 255] };
    let b = Glyph { off_x: 1, off_y: 0, width: 2, height: 1, coverage: vec![128, 128] };
    fb.draw_glyphs(0, 0, &vec![a, b], Color::new(255, 255, 255));
    // Only the first glyph covers pixel 0.
    assert_eq!(pixel(&fb, 0, 0), Color::new(255, 255, 255));
    // Pixel 1 is painted white by the first glyph, then blended again:
    // (255 * 127 + 255 * 128) / 255 = 255.
    assert_eq!(pixel(&fb, 1, 0), Color::new(255, 255, 255));
    // Pixel 2 is only half covered by the second glyph over black.
    assert_eq!(pixel(&fb, 2, 0), Color::new(128, 128, 128));
}

#[test]
fn draw_glyph_clips_outside_the_buffer() {
    let mut fb = Framebuffer::new(2, 2);
    let glyph = Glyph { off_x: -1, off_y: -1, width: 2, height: 2, coverage: vec![255; 4] };
    let before = fb.buffer.clone();
    // Anchored at the origin, only the bottom-right glyph cell lands inside.
    fb.draw_glyph(0, 0, &glyph, Color::new(255, 0, 0));
    assert_eq!(pixel(&fb, 0, 0), Color::new(255, 0, 0));
    assert_eq!(pixel(&fb, 1, 0), before[1]);
    assert_eq!(pixel(&fb, 0, 1), before[2]);
}
