//! A small ARM kernel's verified core: the binned buddy allocator that backs
//! its heap, and the pure logic around it that the kernel's start-up checks,
//! shell, SD card driver and exception handlers rely on.
pub mod allocator;
pub mod blocks;
pub mod checks;
pub mod free_list;
pub mod guarantees;
pub mod report;
pub mod sd;
pub mod shell;
pub mod sizes;
pub mod text;
pub mod traps;
