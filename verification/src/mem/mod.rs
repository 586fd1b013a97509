pub mod pmem;
pub mod mmap;
