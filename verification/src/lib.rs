pub mod mm;
pub mod fs;
pub mod console;
pub mod sync;
pub mod lock;
pub mod console_input;
pub mod proc;
pub mod timer;
pub mod trap;
pub mod sched;
pub mod mem;
pub mod elf;
pub mod syscall;
