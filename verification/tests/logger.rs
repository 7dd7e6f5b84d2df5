use kernel::boot_info::{BootInfo, FrameBuffer, MemorySpan, PixelFormat};
use kernel::log::display::init_framebuffer_writer;
use kernel::log::Logger;

fn screen_logger(to_serial: bool) -> Logger {
    let (w, h) = (400, 32);
    let boot_info = BootInfo {
        kernel_memory: MemorySpan { start: 0, len: 0 },
        ramdisk_memory: None,
        frame_buffer: Some(FrameBuffer {
            pixel_format: PixelFormat::Rgb,
            buffer: MemorySpan { start: 0, len: w * h * 3 },
            width: w,
            height: h,
            stride: w,
            bytes_per_pixel: 3,
        }),
        memory_regions: vec![],
        physical_memory_offset: None,
        pixel_format: None,
    };
    let writer = init_framebuffer_writer(boot_info, vec![0; w * h * 3], vec![[0xFF; 8]; 128]);
    Logger::new(to_serial, true, Some(writer))
}

#[test]
fn log_text_line_for_serial() {
    let mut l = Logger::new(true, false, None);
    assert_eq!(l.log_text("Hello world!").as_deref(), Some("LOG: Hello world!\n"));
}

#[test]
fn log_ok_line_for_serial() {
    let mut l = Logger::new(true, false, None);
    assert_eq!(l.log_ok("Log").as_deref(), Some("Log ... [ \x1b[32mOK\x1b[0m ]\n"));
}

#[test]
fn log_err_line_for_serial() {
    let mut l = Logger::new(true, false, None);
    assert_eq!(l.log_err("666").as_deref(), Some("666 ... [\x1b[31mERR\x1b[0m ]\n"));
}

#[test]
fn write_str_passes_text_through() {
    let mut l = Logger::new(true, true, None);
    assert_eq!(l.write_str("Hello world!").as_deref(), Some("Hello world!"));
}

#[test]
fn nothing_for_serial_when_it_is_off() {
    let mut l = Logger::new(false, false, None);
    assert_eq!(l.log_text("x"), None);
    assert_eq!(l.log_ok("x"), None);
    assert_eq!(l.log_err("x"), None);
    assert_eq!(l.write_str("x"), None);
}

#[test]
fn logging_to_the_screen_too() {
    let mut l = screen_logger(true);
    assert!(l.can_write("LOG: Hello\n"));
    assert_eq!(l.log_text("Hello").as_deref(), Some("LOG: Hello\n"));
    assert_eq!(l.log_ok("Log").as_deref(), Some("Log ... [ \x1b[32mOK\x1b[0m ]\n"));
    assert_eq!(l.log_err("666").as_deref(), Some("666 ... [\x1b[31mERR\x1b[0m ]\n"));
    let mut quiet = screen_logger(false);
    assert_eq!(quiet.log_ok("Log"), None);
    assert!(!quiet.can_write("é"));
}
