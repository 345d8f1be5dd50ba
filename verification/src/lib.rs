//! Memory management, interrupt-table and console logic of a small x86-64
//! UEFI kernel, with the hardware access left to the caller.

pub mod interrupts;
pub mod mem;
pub mod output;
pub mod utils;
