//! What the kernel does with each kind of trap, and the interrupt handlers it runs.
pub mod timer;
pub mod handler;
