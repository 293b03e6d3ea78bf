//! A CHIP-8 interpreter core: the machine state, the framebuffer and keypad,
//! and the fetch/decode/execute cycle, each with a verified contract.

pub mod error;
pub mod memory;
pub mod screen;
pub mod semantics;
pub mod engine;
