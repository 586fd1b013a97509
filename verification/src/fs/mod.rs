pub mod bio;
pub mod buffer;
pub mod bitmap;
pub mod dir;
pub mod dentry;
pub mod device;
pub mod dev;
pub mod tokens;
pub mod mount;
pub mod block;
pub mod inode;

use vstd::prelude::*;
use crate::proc::elf::{le, rd_u32};
use crate::console::{ascii, digits, push_ascii, print_dec, print_hex32};

verus! {

/// Size of a file-system block: one page.
pub const BLOCK_SIZE: usize = 4096;

/// The superblock: where each region of the disk starts and how large it is, in blocks
/// (inodes for `total_inodes`).
pub struct Superblock {
    pub magic: u32,
    pub block_size: u32,
    pub total_blocks: u32,
    pub total_inodes: u32,
    pub inode_bitmap: u32,
    pub inode_bitmap_blocks: u32,
    pub inode_first: u32,
    pub inode_blocks: u32,
    pub data_bitmap: u32,
    pub data_bitmap_blocks: u32,
    pub data_first: u32,
    pub data_blocks: u32,
}

impl Superblock {
    /// Each bitmap lies on the disk, is large enough for what it counts, and ends before
    /// the block number that the buffer cache reserves for unused buffers.
    pub open spec fn layout_ok(&self) -> bool {
        &&& self.total_blocks < u32::MAX
        &&& self.inode_bitmap + self.inode_bitmap_blocks <= self.total_blocks
        &&& self.inode_bitmap_blocks * 32768 >= self.total_inodes
        &&& self.data_bitmap + self.data_bitmap_blocks <= self.total_blocks
        &&& self.data_bitmap_blocks * 32768 >= self.data_blocks
        &&& self.data_first + self.data_blocks <= self.total_blocks
    }
}


/// The superblock that block 0 holds: twelve numbers, little endian, in field order.
pub open spec fn superblock_of(b: Seq<u8>) -> Superblock {
    Superblock {
        magic: le(b.subrange(0, 4)) as u32,
        block_size: le(b.subrange(4, 8)) as u32,
        total_blocks: le(b.subrange(8, 12)) as u32,
        total_inodes: le(b.subrange(12, 16)) as u32,
        inode_bitmap: le(b.subrange(16, 20)) as u32,
        inode_bitmap_blocks: le(b.subrange(20, 24)) as u32,
        inode_first: le(b.subrange(24, 28)) as u32,
        inode_blocks: le(b.subrange(28, 32)) as u32,
        data_bitmap: le(b.subrange(32, 36)) as u32,
        data_bitmap_blocks: le(b.subrange(36, 40)) as u32,
        data_first: le(b.subrange(40, 44)) as u32,
        data_blocks: le(b.subrange(44, 48)) as u32,
    }
}

/// Decodes block 0 and checks the layout it describes: blocks of `BLOCK_SIZE` bytes, and
/// bitmaps that lie on the disk and are large enough (see `Superblock::layout_ok`).
pub fn read_superblock(b: &[u8]) -> (r: Result<Superblock, ()>)
    requires
        b@.len() >= 48,
    ensures
        r is Ok <==> superblock_of(b@).block_size == BLOCK_SIZE && superblock_of(b@).layout_ok(),
        r matches Ok(sb) ==> sb == superblock_of(b@),
{
    let sb = Superblock {
        magic: rd_u32(b, 0),
        block_size: rd_u32(b, 4),
        total_blocks: rd_u32(b, 8),
        total_inodes: rd_u32(b, 12),
        inode_bitmap: rd_u32(b, 16),
        inode_bitmap_blocks: rd_u32(b, 20),
        inode_first: rd_u32(b, 24),
        inode_blocks: rd_u32(b, 28),
        data_bitmap: rd_u32(b, 32),
        data_bitmap_blocks: rd_u32(b, 36),
        data_first: rd_u32(b, 40),
        data_blocks: rd_u32(b, 44),
    };
    if sb.block_size as usize != BLOCK_SIZE || sb.total_blocks == u32::MAX
        || sb.inode_bitmap as u64 + sb.inode_bitmap_blocks as u64 > sb.total_blocks as u64
        || (sb.inode_bitmap_blocks as u64) * 32768 < sb.total_inodes as u64
        || sb.data_bitmap as u64 + sb.data_bitmap_blocks as u64 > sb.total_blocks as u64
        || (sb.data_bitmap_blocks as u64) * 32768 < sb.data_blocks as u64
        || sb.data_first as u64 + sb.data_blocks as u64 > sb.total_blocks as u64 {
        return Err(());
    }
    Ok(sb)
}

/// A number in decimal.
pub open spec fn dec(v: u32) -> Seq<u8> {
    digits(v as nat, 10)
}

/// The four lines that describe a superblock, each ended by a newline.
pub open spec fn superblock_text(sb: Superblock) -> Seq<u8> {
    ascii("superblock: magic="@) + seq![0x30u8, 0x78u8] + digits(sb.magic as nat, 16)
        + ascii(" block_size="@) + dec(sb.block_size) + seq![10u8]
        + ascii("total_blocks="@) + dec(sb.total_blocks) + ascii(" total_inodes="@) + dec(sb.total_inodes) + seq![10u8]
        + ascii("inode_bitmap="@) + dec(sb.inode_bitmap) + ascii(" blocks="@) + dec(sb.inode_bitmap_blocks)
        + ascii(" inode_first="@) + dec(sb.inode_first) + ascii(" blocks="@) + dec(sb.inode_blocks) + seq![10u8]
        + ascii("data_bitmap="@) + dec(sb.data_bitmap) + ascii(" blocks="@) + dec(sb.data_bitmap_blocks)
        + ascii(" data_first="@) + dec(sb.data_first) + ascii(" blocks="@) + dec(sb.data_blocks) + seq![10u8]
}

impl Superblock {
    /// The text that describes the superblock: its magic number in hexadecimal, then the
    /// block size, the totals, and where each region starts and how many blocks it has.
    pub fn print(&self) -> (r: Vec<u8>)
        ensures
            r@ == superblock_text(*self),
    {
        proof {
            reveal_strlit("superblock: magic=");
            reveal_strlit(" block_size=");
            reveal_strlit("total_blocks=");
            reveal_strlit(" total_inodes=");
            reveal_strlit("inode_bitmap=");
            reveal_strlit(" blocks=");
            reveal_strlit(" inode_first=");
            reveal_strlit("data_bitmap=");
            reveal_strlit(" data_first=");
        }
        let mut out: Vec<u8> = Vec::new();
        push_ascii(&mut out, "superblock: magic=");
        out.append(&mut print_hex32(self.magic));
        push_ascii(&mut out, " block_size=");
        out.append(&mut print_dec(self.block_size as usize));
        out.push(10);
        push_ascii(&mut out, "total_blocks=");
        out.append(&mut print_dec(self.total_blocks as usize));
        push_ascii(&mut out, " total_inodes=");
        out.append(&mut print_dec(self.total_inodes as usize));
        out.push(10);
        push_ascii(&mut out, "inode_bitmap=");
        out.append(&mut print_dec(self.inode_bitmap as usize));
        push_ascii(&mut out, " blocks=");
        out.append(&mut print_dec(self.inode_bitmap_blocks as usize));
        push_ascii(&mut out, " inode_first=");
        out.append(&mut print_dec(self.inode_first as usize));
        push_ascii(&mut out, " blocks=");
        out.append(&mut print_dec(self.inode_blocks as usize));
        out.push(10);
        push_ascii(&mut out, "data_bitmap=");
        out.append(&mut print_dec(self.data_bitmap as usize));
        push_ascii(&mut out, " blocks=");
        out.append(&mut print_dec(self.data_bitmap_blocks as usize));
        push_ascii(&mut out, " data_first=");
        out.append(&mut print_dec(self.data_first as usize));
        push_ascii(&mut out, " blocks=");
        out.append(&mut print_dec(self.data_blocks as usize));
        out.push(10);
        proof {
            assert(out@ =~= superblock_text(*self));
        }
        out
    }
}

}
