use kernel::boot_info::{BootInfo, FrameBuffer, MemorySpan, PixelFormat};
use kernel::log::display::{init_framebuffer_writer, Color, FrameBufferWriter};

const W: usize = 32;
const H: usize = 24;

/// A font whose every glyph has only the bit 0 of row 0 set, but for `'B'`,
/// whose row 1 has its bit 2 set.
fn font() -> Vec<[u8; 8]> {
    let mut f = vec![[1u8, 0, 0, 0, 0, 0, 0, 0]; 128];
    f['B' as usize] = [0, 4, 0, 0, 0, 0, 0, 0];
    f
}

fn writer(format: PixelFormat, bpp: usize) -> FrameBufferWriter {
    let len = W * H * bpp;
    let boot_info = BootInfo {
        kernel_memory: MemorySpan { start: 0, len: 0 },
        ramdisk_memory: None,
        frame_buffer: Some(FrameBuffer {
            pixel_format: format,
            buffer: MemorySpan { start: 0x8000_0000, len },
            width: W,
            height: H,
            stride: W,
            bytes_per_pixel: bpp,
        }),
        memory_regions: vec![],
        physical_memory_offset: None,
        pixel_format: Some(format),
    };
    init_framebuffer_writer(boot_info, vec![0x11; len], font())
}

fn pixel(w: &FrameBufferWriter, x: usize, y: usize) -> &[u8] {
    let o = (y * w.stride + x) * w.bytes_per_pixel;
    &w.buffer[o..o + w.bytes_per_pixel]
}

#[test]
fn init_starts_white_on_black_at_the_corner() {
    let w = writer(PixelFormat::Rgb, 3);
    assert_eq!((w.x, w.y), (0, 0));
    assert_eq!(w.fg_color, Color(255, 255, 255));
    assert_eq!(w.bg_color, Color(0, 0, 0));
    assert_eq!((w.width, w.height, w.stride, w.bytes_per_pixel), (W, H, W, 3));
    assert!(w.is_sound());
}

#[test]
fn draw_char_draws_rows_as_columns() {
    let mut w = writer(PixelFormat::Rgb, 3);
    w.fg_color = Color(10, 20, 30);
    w.draw_char('B');
    // Row 1, bit 2: screen column 1, screen row 2.
    assert_eq!(pixel(&w, 1, 2), &[10, 20, 30]);
    assert_eq!(pixel(&w, 2, 1), &[0, 0, 0]);
    assert_eq!(pixel(&w, 0, 0), &[0, 0, 0]);
    // Only the 8x8 cell is touched.
    assert_eq!(pixel(&w, 8, 0), &[0x11, 0x11, 0x11]);
    assert_eq!(pixel(&w, 0, 8), &[0x11, 0x11, 0x11]);
    assert_eq!((w.x, w.y), (8, 0));
}

#[test]
fn pixel_formats() {
    let mut w = writer(PixelFormat::Bgr, 3);
    w.fg_color = Color(10, 20, 30);
    w.draw_char('A');
    assert_eq!(pixel(&w, 0, 0), &[30, 20, 10]);

    let mut w = writer(PixelFormat::U8, 1);
    w.fg_color = Color(100, 200, 50);
    w.draw_char('A');
    // (100 * 77 + 200 * 150 + 50 * 29) / 256 = 152
    assert_eq!(pixel(&w, 0, 0), &[152]);

    let mut w = writer(PixelFormat::Unknown { red_position: 2, green_position: 0, blue_position: 1 }, 4);
    w.fg_color = Color(10, 20, 30);
    w.draw_char('A');
    assert_eq!(pixel(&w, 0, 0), &[20, 30, 10, 0x11]);
}

#[test]
fn pixel_past_the_buffer_is_skipped() {
    let mut w = writer(PixelFormat::Rgb, 3);
    w.y = 16;
    // The cell reaches row 23, the last one: everything is drawn.
    w.draw_char('A');
    assert_eq!(pixel(&w, 0, 16), &[255, 255, 255]);
    assert_eq!(pixel(&w, 7, 23), &[0, 0, 0]);
    // Shorter buffer: the last pixel rows are left out without a fault.
    let mut w = writer(PixelFormat::Rgb, 3);
    w.buffer.truncate(W * 20 * 3);
    w.y = 16;
    w.draw_char('A');
    assert_eq!(w.buffer.len(), W * 20 * 3);
    assert_eq!(pixel(&w, 0, 16), &[255, 255, 255]);
}

#[test]
fn newline_wraps_to_the_top() {
    let mut w = writer(PixelFormat::Rgb, 3);
    w.x = 16;
    w.newline();
    assert_eq!((w.x, w.y), (0, 8));
    w.newline();
    assert_eq!((w.x, w.y), (0, 0));
}

#[test]
fn write_str_breaks_lines() {
    let mut w = writer(PixelFormat::Rgb, 3);
    w.write_str("AB\nA");
    assert_eq!((w.x, w.y), (8, 8));
    assert_eq!(pixel(&w, 0, 0), &[255, 255, 255]);
    assert_eq!(pixel(&w, 9, 2), &[255, 255, 255]);
    assert_eq!(pixel(&w, 0, 8), &[255, 255, 255]);
}

#[test]
fn write_str_drops_the_character_that_finds_no_room() {
    let mut w = writer(PixelFormat::Rgb, 3);
    // Three cells fit in a 32-pixel line: the fourth character moves to the
    // next line and is not drawn, the fifth is drawn there.
    w.write_str("AAAAA");
    assert_eq!((w.x, w.y), (8, 8));
    assert_eq!(pixel(&w, 16, 0), &[255, 255, 255]);
    assert_eq!(pixel(&w, 24, 0), &[0x11, 0x11, 0x11]);
    assert_eq!(pixel(&w, 0, 8), &[255, 255, 255]);
    assert_eq!(pixel(&w, 8, 8), &[0x11, 0x11, 0x11]);
}

#[test]
fn write_parts_uses_each_colour() {
    let mut w = writer(PixelFormat::Rgb, 3);
    let green = (Color(0, 255, 0), Color(0, 0, 0));
    let white = (Color(255, 255, 255), Color(0, 0, 0));
    w.write_parts(&["A", "A", "A"], &[white, green, white]);
    assert_eq!(pixel(&w, 0, 0), &[255, 255, 255]);
    assert_eq!(pixel(&w, 8, 0), &[0, 255, 0]);
    assert_eq!(pixel(&w, 16, 0), &[255, 255, 255]);
    assert_eq!(w.fg_color, Color(255, 255, 255));
}

#[test]
fn can_write_checks_the_glyphs_it_draws() {
    let w = writer(PixelFormat::Rgb, 3);
    assert!(w.can_write("AB\n"));
    assert!(!w.can_write("é"));
    // The character that breaks the line is not drawn, so needs no glyph.
    assert!(w.can_write("AAAé"));
    assert!(!w.can_write("AAAAé"));
}

#[test]
fn erase_clears_the_screen() {
    let mut w = writer(PixelFormat::Rgb, 3);
    w.write_str("AB");
    w.bg_color = Color(1, 2, 3);
    w.erase();
    assert_eq!((w.x, w.y), (0, 0));
    assert!(w.buffer.chunks(3).all(|p| p == [1, 2, 3]));
}

#[test]
fn writing_in_two_parts_is_writing_the_whole() {
    let mut whole = writer(PixelFormat::Rgb, 3);
    whole.write_str("ABA\nBA");
    let mut parts = writer(PixelFormat::Rgb, 3);
    parts.write_str("AB");
    parts.write_str("A\nBA");
    assert_eq!(whole.buffer, parts.buffer);
    assert_eq!((whole.x, whole.y), (parts.x, parts.y));
}

#[test]
fn a_format_writing_past_the_buffer_is_not_sound() {
    // The blue byte of the last pixel would land 2 bytes past the buffer.
    let w = writer(PixelFormat::Unknown { red_position: 2, green_position: 0, blue_position: 5 }, 3);
    assert!(!w.is_sound());
    let w = writer(PixelFormat::Unknown { red_position: 2, green_position: 0, blue_position: 1 }, 3);
    assert!(w.is_sound());
    let w = writer(PixelFormat::Unknown { red_position: 3, green_position: 0, blue_position: 1 }, 4);
    assert!(w.is_sound());
}

#[test]
fn erase_puts_back_a_cursor_that_left_the_screen() {
    let mut w = writer(PixelFormat::Rgb, 3);
    w.x = 1000;
    w.y = 1000;
    assert!(!w.is_sound());
    w.erase();
    assert_eq!((w.x, w.y), (0, 0));
    assert!(w.is_sound());
}

#[test]
fn write_str_keeps_the_cursor_left_of_the_edge() {
    let mut w = writer(PixelFormat::Rgb, 3);
    w.write_str("AAAAAAAAAA\nAAAA");
    assert!(w.x < W);
}
