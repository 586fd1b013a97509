//! Inodes on disk: the 64-byte record of a file's type, device numbers, link count,
//! size and block index, in little-endian at fixed offsets.
use vstd::prelude::*;
use crate::proc::elf::{le, lemma_le2, lemma_le4, rd_u16, rd_u32};

verus! {

/// Bytes of an inode on disk.
pub const DISK_INODE_BYTES: usize = 64;
/// Entries of the block index: 10 direct, 2 single indirect, 1 double indirect.
pub const INDEX_LEN: usize = 13;

/// An inode as stored on disk.
#[derive(Clone, Copy)]
pub struct DiskInode {
    pub kind: u16,
    pub major: u16,
    pub minor: u16,
    pub nlink: u16,
    pub size: u32,
    pub index: [u32; 13],
}

/// Offset of index entry `k` in the record.
pub open spec fn index_offset(k: int) -> int {
    12 + 4 * k
}

/// `ino` is the record whose 64 bytes are `s`.
pub open spec fn decodes(ino: DiskInode, s: Seq<u8>) -> bool {
    &&& s.len() == DISK_INODE_BYTES
    &&& ino.kind == le(s.subrange(0, 2))
    &&& ino.major == le(s.subrange(2, 4))
    &&& ino.minor == le(s.subrange(4, 6))
    &&& ino.nlink == le(s.subrange(6, 8))
    &&& ino.size == le(s.subrange(8, 12))
    &&& forall|k: int| 0 <= k < INDEX_LEN ==> #[trigger] ino.index@[k] == le(s.subrange(index_offset(k), index_offset(k) + 4))
}

/// Appends `v` as two little-endian bytes.
fn push_le16(out: &mut Vec<u8>, v: u16)
    ensures
        final(out)@.len() == old(out)@.len() + 2,
        final(out)@.subrange(0, old(out)@.len() as int) == old(out)@,
        le(final(out)@.subrange(old(out)@.len() as int, old(out)@.len() + 2int)) == v,
{
    let b0 = (v & 0xff) as u8;
    let b1 = (v >> 8) as u8;
    let ghost start = out@;
    out.push(b0);
    out.push(b1);
    proof {
        let s = out@.subrange(start.len() as int, start.len() + 2int);
        lemma_le2(s);
        assert(s[0] == b0 && s[1] == b1);
        assert(b0 + 256 * b1 == v) by (bit_vector)
            requires b0 == (v & 0xff) as u8, b1 == (v >> 8) as u8;
        assert(out@.subrange(0, start.len() as int) =~= start);
    }
}

/// Appends `v` as four little-endian bytes.
fn push_le32(out: &mut Vec<u8>, v: u32)
    ensures
        final(out)@.len() == old(out)@.len() + 4,
        final(out)@.subrange(0, old(out)@.len() as int) == old(out)@,
        le(final(out)@.subrange(old(out)@.len() as int, old(out)@.len() + 4int)) == v,
{
    let b0 = (v & 0xff) as u8;
    let b1 = ((v >> 8) & 0xff) as u8;
    let b2 = ((v >> 16) & 0xff) as u8;
    let b3 = (v >> 24) as u8;
    let ghost start = out@;
    out.push(b0);
    out.push(b1);
    out.push(b2);
    out.push(b3);
    proof {
        let s = out@.subrange(start.len() as int, start.len() + 4int);
        lemma_le4(s);
        assert(s[0] == b0 && s[1] == b1 && s[2] == b2 && s[3] == b3);
        assert(b0 + 256 * (b1 + 256 * (b2 + 256 * b3)) == v) by (bit_vector)
            requires b0 == (v & 0xff) as u8, b1 == ((v >> 8) & 0xff) as u8, b2 == ((v >> 16) & 0xff) as u8, b3 == (v >> 24) as u8;
        assert(out@.subrange(0, start.len() as int) =~= start);
    }
}

impl DiskInode {
    /// An unused inode: every field zero.
    pub fn zero() -> (r: DiskInode)
        ensures
            r.kind == 0 && r.major == 0 && r.minor == 0 && r.nlink == 0 && r.size == 0,
            forall|k: int| 0 <= k < INDEX_LEN ==> #[trigger] r.index@[k] == 0,
    {
        DiskInode { kind: 0, major: 0, minor: 0, nlink: 0, size: 0, index: [0u32; 13] }
    }

    /// Decodes the record at `b[off..off + 64]`.
    pub fn decode(b: &[u8], off: usize) -> (r: DiskInode)
        requires
            off + DISK_INODE_BYTES <= b@.len(),
        ensures
            decodes(r, b@.subrange(off as int, off + DISK_INODE_BYTES)),
    {
        let ghost s = b@.subrange(off as int, off + DISK_INODE_BYTES);
        let n = b.len();
        let mut index = [0u32; 13];
        let mut k: usize = 0;
        while k < INDEX_LEN
            invariant
                k <= INDEX_LEN,
                n == b@.len(),
                off + DISK_INODE_BYTES <= b@.len(),
                s == b@.subrange(off as int, off + DISK_INODE_BYTES),
                forall|j: int| 0 <= j < k ==> #[trigger] index@[j] == le(s.subrange(index_offset(j), index_offset(j) + 4)),
            decreases INDEX_LEN - k,
        {
            let v = rd_u32(b, off + 12 + 4 * k);
            proof {
                assert(b@.subrange(off + 12 + 4 * k, off + 12 + 4 * k + 4)
                    =~= s.subrange(index_offset(k as int), index_offset(k as int) + 4));
            }
            index[k] = v;
            k = k + 1;
        }
        let r = DiskInode {
            kind: rd_u16(b, off),
            major: rd_u16(b, off + 2),
            minor: rd_u16(b, off + 4),
            nlink: rd_u16(b, off + 6),
            size: rd_u32(b, off + 8),
            index,
        };
        proof {
            assert(b@.subrange(off as int, off + 2) =~= s.subrange(0, 2));
            assert(b@.subrange(off + 2, off + 4) =~= s.subrange(2, 4));
            assert(b@.subrange(off + 4, off + 6) =~= s.subrange(4, 6));
            assert(b@.subrange(off + 6, off + 8) =~= s.subrange(6, 8));
            assert(b@.subrange(off + 8, off + 12) =~= s.subrange(8, 12));
        }
        r
    }

    /// The 64 bytes that store this inode.
    pub fn encode(&self) -> (r: Vec<u8>)
        ensures
            decodes(*self, r@),
    {
        let mut out: Vec<u8> = Vec::new();
        push_le16(&mut out, self.kind);
        let ghost s1 = out@;
        push_le16(&mut out, self.major);
        let ghost s2 = out@;
        push_le16(&mut out, self.minor);
        let ghost s3 = out@;
        push_le16(&mut out, self.nlink);
        let ghost s4 = out@;
        push_le32(&mut out, self.size);
        let ghost s5 = out@;
        proof {
            assert(s5.subrange(0, 2) =~= s1.subrange(0, 2));
            assert(s5.subrange(2, 4) =~= s2.subrange(2, 4));
            assert(s5.subrange(4, 6) =~= s3.subrange(4, 6));
            assert(s5.subrange(6, 8) =~= s4.subrange(6, 8));
        }
        let mut k: usize = 0;
        while k < INDEX_LEN
            invariant
                k <= INDEX_LEN,
                out@.len() == 12 + 4 * k,
                out@.subrange(0, 12) == s5,
                s5.len() == 12,
                self.kind == le(s5.subrange(0, 2)),
                self.major == le(s5.subrange(2, 4)),
                self.minor == le(s5.subrange(4, 6)),
                self.nlink == le(s5.subrange(6, 8)),
                self.size == le(s5.subrange(8, 12)),
                forall|j: int| 0 <= j < k ==> #[trigger] self.index@[j] == le(out@.subrange(index_offset(j), index_offset(j) + 4)),
            decreases INDEX_LEN - k,
        {
            let ghost before = out@;
            push_le32(&mut out, self.index[k]);
            proof {
                assert(out@.subrange(0, 12) =~= before.subrange(0, 12));
                assert forall|j: int| 0 <= j < k implies #[trigger] self.index@[j] == le(out@.subrange(index_offset(j), index_offset(j) + 4)) by {
                    assert(out@.subrange(index_offset(j), index_offset(j) + 4) =~= before.subrange(index_offset(j), index_offset(j) + 4));
                }
            }
            k = k + 1;
        }
        proof {
            assert(out@.subrange(0, 12).subrange(0, 2) =~= out@.subrange(0, 2));
            assert(out@.subrange(0, 12).subrange(2, 4) =~= out@.subrange(2, 4));
            assert(out@.subrange(0, 12).subrange(4, 6) =~= out@.subrange(4, 6));
            assert(out@.subrange(0, 12).subrange(6, 8) =~= out@.subrange(6, 8));
            assert(out@.subrange(0, 12).subrange(8, 12) =~= out@.subrange(8, 12));
        }
        out
    }
}

/// Two records decoded from the same bytes are the same record; with [`DiskInode::encode`]
/// and [`DiskInode::decode`] this makes decoding what was encoded give the inode back.
pub proof fn lemma_inode_round_trip(a: DiskInode, b: DiskInode, s: Seq<u8>)
    requires
        decodes(a, s),
        decodes(b, s),
    ensures
        a == b,
{
    assert(a.index@ =~= b.index@);
    vstd::array::lemma_array_index(a.index, 0);
    assert(a.index == b.index);
}

}
