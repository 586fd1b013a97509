pub mod spinlock;
pub mod sleeplock;
