//! What the bootloader hands the kernel: where the kernel, the ramdisk and the
//! frame buffer are, and the map of physical memory.
use vstd::prelude::*;

verus! {

/// A range of memory: its first address and its length in bytes.
#[derive(Debug, Clone, Copy, PartialEq, Eq, Structural)]
pub struct MemorySpan {
    pub start: usize,
    pub len: usize,
}

/// What a region of physical memory holds.
#[derive(Debug, Clone, Copy, PartialEq, Eq, Structural)]
pub enum MemoryRegionKind {
    Kernel,
    Usable,
    Unknown,
}

/// A region of physical memory and what it holds.
#[derive(Debug, Clone, Copy, PartialEq, Eq, Structural)]
pub struct MemoryRegion {
    pub memory: MemorySpan,
    pub kind: MemoryRegionKind,
}

/// How the bytes of a pixel encode its colour.
#[derive(Debug, Clone, Copy, PartialEq, Eq, Structural)]
pub enum PixelFormat {
    Rgb,
    Bgr,
    U8,
    Unknown { red_position: usize, green_position: usize, blue_position: usize },
}

/// The linear frame buffer that the firmware set up.
#[derive(Debug, Clone, Copy, PartialEq, Eq, Structural)]
pub struct FrameBuffer {
    pub pixel_format: PixelFormat,
    pub buffer: MemorySpan,
    pub width: usize,
    pub height: usize,
    pub stride: usize,
    pub bytes_per_pixel: usize,
}

/// Everything the bootloader tells the kernel.
#[derive(Debug, Clone)]
pub struct BootInfo {
    pub kernel_memory: MemorySpan,
    pub ramdisk_memory: Option<MemorySpan>,
    pub frame_buffer: Option<FrameBuffer>,
    pub memory_regions: Vec<MemoryRegion>,
    pub physical_memory_offset: Option<usize>,
    pub pixel_format: Option<PixelFormat>,
}

} // verus!
