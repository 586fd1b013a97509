pub mod context;
pub mod elf;
pub mod proc;
pub mod lifecycle;
pub mod files;
