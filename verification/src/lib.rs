//! Boot-time memory subsystem of a 64-bit loader: physical frame allocation,
//! four-level page tables, construction of the kernel's address space, loading
//! of the kernel image and classification of the firmware's memory map.
//!
//! Everything here works on plain values. Reading files, talking to firmware
//! and writing to physical memory is left to the program around the library.
use vstd::prelude::*;

pub mod address_space;
pub mod firmware;
pub mod graphics;
pub mod loader;
pub mod memory;
pub mod paging;
pub mod pmm;
pub mod translate;
pub mod video;

use crate::graphics::FrameBufferMetadata;
use crate::memory::MemoryMap;

verus! {

/// The record handed from the loader to the kernel.
#[derive(Clone, Debug)]
pub struct BootInfo {
    pub frame_buffer_metadata: FrameBufferMetadata,
    pub memory_map: MemoryMap,
}

} // verus!
