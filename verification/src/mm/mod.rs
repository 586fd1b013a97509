pub mod pmem;
pub mod vm;
pub mod uvm;
