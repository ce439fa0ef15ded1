//! The logic of a small aarch64 microkernel, verified.
//!
//! Every module owns its state as an ordinary value: the physical frame
//! allocator, the page tables that live in physical memory, the task table,
//! the message rendezvous, the notification bits, the device tree and the
//! virtio rings. Nothing here touches a device register or executes a
//! privileged instruction. Where the machine has to be asked to do something,
//! a function returns what is to be done.

pub mod exceptions;
pub mod fdt;
pub mod frames;
pub mod gic;
pub mod ipc;
pub mod memory;
pub mod notify;
pub mod paging;
pub mod semihosting;
pub mod sync;
pub mod syscall;
pub mod tasks;
pub mod text;
pub mod timer;
pub mod uart;
pub mod virtio;
pub mod virtqueue;
