//! Device inodes: small fixed inode numbers that stand for devices rather than files.
//! They are a convention, not inodes on disk, and are never handed out.
use vstd::prelude::*;
use crate::console::Writer;

verus! {

/// Inode number of the console. 0 is not used: a file table slot holding 0 is empty.
pub const CONSOLE_INUM: u32 = 1;
/// Inode number of the null device.
pub const NULL_INUM: u32 = 2;
/// Inode numbers reserved for devices, counted from 1.
pub const NR_DEVICE_INODES: u32 = 2;

/// The devices.
#[derive(PartialEq, Eq, Structural, Clone, Copy, Debug)]
pub enum DeviceKind {
    Console,
    Null,
}

/// The device an inode number stands for, if any.
pub fn device_kind(inum: u32) -> (r: Option<DeviceKind>)
    ensures
        r == if inum == CONSOLE_INUM { Some(DeviceKind::Console) } else if inum == NULL_INUM {
            Some(DeviceKind::Null)
        } else {
            None::<DeviceKind>
        },
{
    if inum == CONSOLE_INUM {
        Some(DeviceKind::Console)
    } else if inum == NULL_INUM {
        Some(DeviceKind::Null)
    } else {
        None
    }
}

/// Writes `buf` to a device: the console prints it, null drops it. Either way every
/// byte counts as written, so that callers do not retry.
pub fn dev_write(kind: DeviceKind, con: &mut Writer, buf: &[u8]) -> (n: usize)
    ensures
        n == buf@.len(),
        kind == DeviceKind::Console ==> final(con).out@ == old(con).out@ + buf@,
        kind == DeviceKind::Null ==> final(con).out@ == old(con).out@,
{
    match kind {
        DeviceKind::Console => {
            let mut i: usize = 0;
            while i < buf.len()
                invariant
                    i <= buf@.len(),
                    con.out@ == old(con).out@ + buf@.subrange(0, i as int),
                decreases buf@.len() - i,
            {
                con.out.push(buf[i]);
                proof {
                    assert(con.out@ =~= old(con).out@ + buf@.subrange(0, i + 1));
                }
                i = i + 1;
            }
            proof {
                assert(buf@.subrange(0, buf@.len() as int) =~= buf@);
            }
            buf.len()
        },
        DeviceKind::Null => buf.len(),
    }
}

/// Reads a device: console input is not wired to device inodes, and null is always at
/// its end, so nothing is read.
pub fn dev_read(kind: DeviceKind, buf: &mut Vec<u8>) -> (n: usize)
    ensures
        n == 0,
        final(buf)@ == old(buf)@,
{
    match kind {
        DeviceKind::Console => 0,
        DeviceKind::Null => 0,
    }
}

}
