//! Mounting the block file system: its superblock, the checks that the superblock is
//! consistent, and the search of a directory's contents for a name.
use vstd::prelude::*;
use crate::proc::elf::{le, rd_u32};
use crate::fs::dentry::{nul_len, cname};
use crate::fs::bio::{BlockDevice, BufCache, BufView, BLOCK_SIZE, NBUF};
use crate::fs::inode::{DiskInode, DISK_INODE_BYTES, decodes};

verus! {

/// Magic number of the file system.
pub const FSMAGIC: u32 = 0x1020_3040;
/// Inode number of the root directory.
pub const ROOTINO: u32 = 1;
/// Bytes of an inode on disk.
pub const DISK_INODE_SIZE: usize = 64;
/// Bytes of a block.
pub const BLOCK_BYTES: usize = 512;
/// Type of a directory inode.
pub const T_DIR: u16 = 1;

/// Why a file system cannot be mounted.
#[derive(PartialEq, Eq, Structural, Clone, Copy, Debug)]
pub enum MountError {
    Io,
    BadMagic,
    BadSuperblock,
    BadRoot,
}

/// The superblock as read from disk.
#[derive(Clone, Copy)]
pub struct Superblock {
    pub magic: u32,
    pub size: u32,
    pub ninodes: u32,
    pub inodestart: u32,
    pub nfiles: u32,
}

impl Superblock {
    /// Decodes the superblock from the first bytes of block 0 (little endian; bytes 16..20
    /// are not used).
    pub fn parse(buf: &[u8]) -> (r: Superblock)
        requires
            buf@.len() >= 24,
        ensures
            r.magic == le(buf@.subrange(0, 4)),
            r.size == le(buf@.subrange(4, 8)),
            r.ninodes == le(buf@.subrange(8, 12)),
            r.inodestart == le(buf@.subrange(12, 16)),
            r.nfiles == le(buf@.subrange(20, 24)),
    {
        Superblock {
            magic: rd_u32(buf, 0),
            size: rd_u32(buf, 4),
            ninodes: rd_u32(buf, 8),
            inodestart: rd_u32(buf, 12),
            nfiles: rd_u32(buf, 20),
        }
    }
}

/// Blocks that `n` inodes take.
pub open spec fn inode_blocks(n: u32) -> int {
    (n + (BLOCK_BYTES / DISK_INODE_SIZE) - 1) / (BLOCK_BYTES / DISK_INODE_SIZE) as int
}

/// The checks a superblock passes before mounting, in order: the magic number; at least
/// one inode, in an inode area that does not start at block 0; the inode area within the
/// disk.
pub open spec fn superblock_check(sb: Superblock) -> Result<(), MountError> {
    if sb.magic != FSMAGIC {
        Err::<(), MountError>(MountError::BadMagic)
    } else if sb.ninodes == 0 || sb.inodestart == 0 || sb.inodestart + inode_blocks(sb.ninodes) > sb.size {
        Err(MountError::BadSuperblock)
    } else {
        Ok(())
    }
}

/// Runs the checks of [`superblock_check`].
pub fn check_superblock(sb: &Superblock) -> (r: Result<(), MountError>)
    ensures
        r == superblock_check(*sb),
{
    if sb.magic != FSMAGIC {
        return Err(MountError::BadMagic);
    }
    if sb.ninodes == 0 || sb.inodestart == 0 {
        return Err(MountError::BadSuperblock);
    }
    let per = (BLOCK_BYTES / DISK_INODE_SIZE) as u64;
    let blocks = (sb.ninodes as u64 + per - 1) / per;
    if sb.inodestart as u64 + blocks > sb.size as u64 {
        return Err(MountError::BadSuperblock);
    }
    Ok(())
}

/// The root inode must be a directory.
pub fn check_root(root_type: u16) -> (r: Result<(), MountError>)
    ensures
        r is Ok <==> root_type == T_DIR,
        r is Err ==> r == Err::<(), MountError>(MountError::BadRoot),
{
    if root_type != T_DIR {
        return Err(MountError::BadRoot);
    }
    Ok(())
}

/// Block that holds the superblock.
pub const SUPERBLOCK_BLOCK: usize = 0;
/// Inodes in a block.
pub const INODES_PER_BLOCK: usize = 8;

/// The superblock whose bytes start block `b`.
pub open spec fn superblock_of_bytes(b: Seq<u8>) -> Superblock {
    Superblock {
        magic: le(b.subrange(0, 4)) as u32,
        size: le(b.subrange(4, 8)) as u32,
        ninodes: le(b.subrange(8, 12)) as u32,
        inodestart: le(b.subrange(12, 16)) as u32,
        nfiles: le(b.subrange(20, 24)) as u32,
    }
}

/// Block and byte offset of inode `inum` (numbered from 1) in the inode area of `sb`.
pub open spec fn inode_position(sb: Superblock, inum: u32) -> (int, int) {
    (sb.inodestart + (inum - 1) / INODES_PER_BLOCK as int, ((inum - 1) % INODES_PER_BLOCK as int) * DISK_INODE_BYTES as int)
}

/// Every cache slot with valid contents holds what the device holds for its block.
pub open spec fn coherent(v: Seq<BufView>, blocks: Seq<Seq<u8>>) -> bool {
    forall|j: int| 0 <= j < v.len() && (#[trigger] v[j]).valid != 0
        ==> v[j].blockno < blocks.len() && v[j].data == blocks[v[j].blockno as int]
}

/// The cache a mount may use: well formed, coherent with the device, a free slot.
pub open spec fn cache_ready(c: BufCache, blocks: Seq<Seq<u8>>) -> bool {
    &&& c.wf()
    &&& coherent(c@, blocks)
    &&& exists|j: int| 0 <= j < NBUF && #[trigger] c@[j].refcnt == 0
    &&& forall|j: int| 0 <= j < NBUF ==> #[trigger] c@[j].refcnt < usize::MAX
}

/// The cache after a read that returned its slot: the references are as they were.
pub open spec fn cache_kept_refs(c0: BufCache, c1: BufCache, blocks: Seq<Seq<u8>>) -> bool {
    &&& c1.wf()
    &&& coherent(c1@, blocks)
    &&& forall|j: int| 0 <= j < NBUF ==> #[trigger] c1@[j].refcnt == c0@[j].refcnt
}

/// What mounting a device holding `blocks` gives when every read succeeds: the
/// superblock of block 0 once it passes its checks and the root inode is a directory.
pub open spec fn mount_outcome(blocks: Seq<Seq<u8>>) -> Result<Superblock, MountError> {
    if blocks.len() == 0 {
        Err(MountError::Io)
    } else {
        let sb = superblock_of_bytes(blocks[0]);
        match superblock_check(sb) {
            Err(e) => Err(e),
            Ok(_) => {
                let (blk, off) = inode_position(sb, ROOTINO);
                if blk >= blocks.len() {
                    Err(MountError::Io)
                } else if le(blocks[blk].subrange(off, off + 2)) == T_DIR {
                    Ok(sb)
                } else {
                    Err(MountError::BadRoot)
                }
            },
        }
    }
}

/// A mounted file system: its superblock and the device it lives on.
pub struct Fs<D: BlockDevice> {
    pub sb: Superblock,
    dev: D,
}

impl<D: BlockDevice> Fs<D> {
    /// The contents of the device.
    pub closed spec fn blocks(&self) -> Seq<Seq<u8>> {
        self.dev.blocks()
    }

    /// The superblock read at mount.
    pub closed spec fn superblock(&self) -> Superblock {
        self.sb
    }

    /// The device serves every request for a block it has.
    pub closed spec fn healthy(&self) -> bool {
        self.dev.healthy()
    }

    pub closed spec fn wf(&self) -> bool {
        self.dev.block_len() == BLOCK_SIZE
    }

    /// Reads `len` bytes at `off` of block `blockno` through `cache`; `None` when the
    /// block cannot be read. The cache's references end as they were.
    fn read_bytes(&mut self, cache: &mut BufCache, blockno: usize, off: usize, len: usize) -> (r: Option<Vec<u8>>)
        requires
            old(self).wf(),
            cache_ready(*old(cache), old(self).blocks()),
            off + len <= BLOCK_SIZE,
        ensures
            final(self).wf(),
            final(self).blocks() == old(self).blocks(),
            final(self).superblock() == old(self).superblock(),
            cache_ready(*final(cache), old(self).blocks()),
            cache_kept_refs(*old(cache), *final(cache), old(self).blocks()),
            r matches Some(v) ==> blockno < old(self).blocks().len()
                && old(self).blocks()[blockno as int].len() == BLOCK_SIZE
                && v@ == old(self).blocks()[blockno as int].subrange(off as int, off + len),
            old(self).healthy() ==> final(self).healthy(),
            old(self).healthy() && blockno < old(self).blocks().len() ==> r is Some,
    {
        let ghost c0 = *cache;
        proof {
            c0.lemma_view();
        }
        let i = cache.bread(&mut self.dev, blockno);
        let ghost c1 = *cache;
        proof {
            c1.lemma_view();
            assert forall|j: int| 0 <= j < c1@.len() && (#[trigger] c1@[j]).valid != 0 implies
                c1@[j].blockno < self.blocks().len() && c1@[j].data == self.blocks()[c1@[j].blockno as int] by {
                if j != i {
                    assert(c1@[j] == c0@[j]);
                }
            }
        }
        let data = cache.block_data(i);
        let mut out: Option<Vec<u8>> = None;
        if data.len() == BLOCK_SIZE {
            let mut v: Vec<u8> = Vec::new();
            let mut k: usize = 0;
            while k < len
                invariant
                    k <= len,
                    off + len <= BLOCK_SIZE,
                    data@.len() == BLOCK_SIZE,
                    v@ == data@.subrange(off as int, off + k),
                decreases len - k,
            {
                v.push(data[off + k]);
                proof {
                    assert(v@ =~= data@.subrange(off as int, off + k + 1));
                }
                k = k + 1;
            }
            out = Some(v);
        }
        cache.release(i);
        proof {
            cache.lemma_view();
            assert forall|j: int| 0 <= j < NBUF implies #[trigger] cache@[j].refcnt == c0@[j].refcnt by {
                if j != i {
                    assert(c1@[j] == c0@[j]);
                }
            }
            assert forall|j: int| 0 <= j < cache@.len() && (#[trigger] cache@[j]).valid != 0 implies
                cache@[j].blockno < self.blocks().len() && cache@[j].data == self.blocks()[cache@[j].blockno as int] by {
                assert(c1@[j].valid != 0);
            }
            let w = choose|j: int| 0 <= j < NBUF && #[trigger] c0@[j].refcnt == 0;
            assert(cache@[w].refcnt == 0);
        }
        out
    }

    /// Reads inode `inum` (numbered from 1) from the inode area; `None` when its block
    /// cannot be read.
    pub fn read_inode(&mut self, cache: &mut BufCache, inum: u32) -> (r: Option<DiskInode>)
        requires
            old(self).wf(),
            cache_ready(*old(cache), old(self).blocks()),
            superblock_check(old(self).superblock()) is Ok,
            1 <= inum <= old(self).superblock().ninodes,
        ensures
            final(self).wf(),
            final(self).blocks() == old(self).blocks(),
            final(self).superblock() == old(self).superblock(),
            cache_ready(*final(cache), old(self).blocks()),
            cache_kept_refs(*old(cache), *final(cache), old(self).blocks()),
            r matches Some(ino) ==> {
                let (blk, off) = inode_position(old(self).superblock(), inum);
                &&& blk < old(self).blocks().len()
                &&& old(self).blocks()[blk].len() == BLOCK_SIZE
                &&& 0 <= off && off + DISK_INODE_BYTES <= BLOCK_SIZE
                &&& decodes(ino, old(self).blocks()[blk].subrange(off, off + DISK_INODE_BYTES))
            },
            old(self).healthy() ==> final(self).healthy(),
            old(self).healthy() && inode_position(old(self).superblock(), inum).0 < old(self).blocks().len() ==> r is Some,
    {
        proof {
            let n = self.sb.ninodes as int;
            assert((inum - 1) / 8 < (n + 7) / 8) by (nonlinear_arith)
                requires 1 <= inum <= n;
            assert(((inum - 1) % 8) * 64 + 64 <= 512) by (nonlinear_arith)
                requires inum >= 1;
        }
        let blockno = self.sb.inodestart as usize + ((inum - 1) / INODES_PER_BLOCK as u32) as usize;
        let off = (((inum - 1) % INODES_PER_BLOCK as u32) as usize) * DISK_INODE_BYTES;
        match self.read_bytes(cache, blockno, off, DISK_INODE_BYTES) {
            None => None,
            Some(bytes) => {
                let ino = DiskInode::decode(bytes.as_slice(), 0);
                proof {
                    let s0 = self.blocks()[blockno as int].subrange(off as int, off + DISK_INODE_BYTES);
                    assert(bytes@.subrange(0, DISK_INODE_BYTES as int) =~= s0);
                }
                proof {
                    assert(bytes@.subrange(0, DISK_INODE_BYTES as int) =~= bytes@);
                }
                Some(ino)
            },
        }
    }

    /// Mounts the file system on `dev`: reads the superblock, checks it, and checks that
    /// the root inode is a directory. Besides [`MountError::Io`] for a failed read, the
    /// result is [`mount_outcome`] of the device's contents.
    pub fn mount(dev: D, cache: &mut BufCache) -> (r: Result<Fs<D>, MountError>)
        requires
            dev.block_len() == BLOCK_SIZE,
            cache_ready(*old(cache), dev.blocks()),
        ensures
            cache_ready(*final(cache), dev.blocks()),
            cache_kept_refs(*old(cache), *final(cache), dev.blocks()),
            match r {
                Ok(fs) => mount_outcome(dev.blocks()) == Ok::<Superblock, MountError>(fs.superblock())
                    && fs.blocks() == dev.blocks() && fs.wf(),
                Err(MountError::Io) => true,
                Err(e) => mount_outcome(dev.blocks()) == Err::<Superblock, MountError>(e),
            },
            dev.healthy() ==> match r {
                Ok(fs) => fs.healthy(),
                Err(e) => mount_outcome(dev.blocks()) == Err::<Superblock, MountError>(e),
            },
    {
        let ghost blocks = dev.blocks();
        let mut fs = Fs { sb: Superblock { magic: 0, size: 0, ninodes: 0, inodestart: 0, nfiles: 0 }, dev };
        let head = match fs.read_bytes(cache, SUPERBLOCK_BLOCK, 0, 24) {
            None => return Err(MountError::Io),
            Some(h) => h,
        };
        let sb = Superblock::parse(head.as_slice());
        proof {
            assert(head@.subrange(0, 4) =~= blocks[0].subrange(0, 4));
            assert(head@.subrange(4, 8) =~= blocks[0].subrange(4, 8));
            assert(head@.subrange(8, 12) =~= blocks[0].subrange(8, 12));
            assert(head@.subrange(12, 16) =~= blocks[0].subrange(12, 16));
            assert(head@.subrange(20, 24) =~= blocks[0].subrange(20, 24));
            assert(sb == superblock_of_bytes(blocks[0]));
        }
        match check_superblock(&sb) {
            Err(e) => return Err(e),
            Ok(()) => {},
        }
        fs.sb = sb;
        let root = match fs.read_inode(cache, ROOTINO) {
            None => return Err(MountError::Io),
            Some(ino) => ino,
        };
        proof {
            let (blk, off) = inode_position(sb, ROOTINO);
            assert(blocks[blk].subrange(off, off + DISK_INODE_BYTES).subrange(0, 2) =~= blocks[blk].subrange(off, off + 2));
        }
        match check_root(root.kind) {
            Err(e) => return Err(e),
            Ok(()) => {},
        }
        Ok(fs)
    }
}

/// Bytes of a directory entry: inode number, name length, 14 bytes of name.
pub const DIRENT_BYTES: usize = 20;
/// Entries in a block (the last 12 bytes are unused).
pub const DIRENTS_PER_BLOCK: usize = 25;

/// Offset of entry `j` of block `b`.
pub open spec fn entry_offset(b: int, j: int) -> int {
    BLOCK_BYTES * b + DIRENT_BYTES * j
}

/// Entry `j` of block `b` of directory data `d` is in use and its name (up to the first
/// NUL of its 14 bytes) is `name`.
pub open spec fn entry_named(d: Seq<u8>, b: int, j: int, name: Seq<u8>) -> bool {
    let o = entry_offset(b, j);
    &&& o + DIRENT_BYTES <= d.len()
    &&& le(d.subrange(o, o + 4)) != 0
    &&& cname(d.subrange(o + 6, o + 20)) == name
}

/// The position of entry (b, j) in the order of the search: block by block.
pub open spec fn entry_rank(b: int, j: int) -> int {
    DIRENTS_PER_BLOCK * b + j
}

/// Looks up `name` in directory contents `d` (whole blocks of entries): the inode of the
/// first entry holding it, or `None`.
pub fn find_dirent(d: &[u8], name: &[u8]) -> (r: Option<u32>)
    ensures
        r matches Some(n) ==> exists|b: int, j: int| 0 <= b && 0 <= j < DIRENTS_PER_BLOCK && entry_named(d@, b, j, name@)
            && n == le(d@.subrange(entry_offset(b, j), entry_offset(b, j) + 4))
            && forall|b2: int, j2: int| 0 <= b2 && 0 <= j2 < DIRENTS_PER_BLOCK && entry_rank(b2, j2) < entry_rank(b, j)
                ==> !#[trigger] entry_named(d@, b2, j2, name@),
        r is None ==> forall|b: int, j: int| 0 <= b && 0 <= j < DIRENTS_PER_BLOCK ==> !#[trigger] entry_named(d@, b, j, name@),
{
    let dl = d.len();
    let nblocks = dl / BLOCK_BYTES;
    let mut b: usize = 0;
    while b <= nblocks
        invariant
            dl == d@.len(),
            nblocks == d@.len() / (BLOCK_BYTES as nat),
            b <= nblocks + 1,
            forall|b2: int, j2: int| 0 <= b2 < b && 0 <= j2 < DIRENTS_PER_BLOCK ==> !#[trigger] entry_named(d@, b2, j2, name@),
        decreases nblocks + 1 - b,
    {
        let mut j: usize = 0;
        while j < DIRENTS_PER_BLOCK
            invariant
                dl == d@.len(),
                nblocks == d@.len() / (BLOCK_BYTES as nat),
                b <= nblocks,
                j <= DIRENTS_PER_BLOCK,
                forall|b2: int, j2: int| 0 <= b2 < b && 0 <= j2 < DIRENTS_PER_BLOCK ==> !#[trigger] entry_named(d@, b2, j2, name@),
                forall|j2: int| 0 <= j2 < j ==> !#[trigger] entry_named(d@, b as int, j2, name@),
            decreases DIRENTS_PER_BLOCK - j,
        {
            assert(BLOCK_BYTES * b <= dl) by (nonlinear_arith)
                requires
                    b <= nblocks,
                    nblocks == dl / 512,
            ;
            let room = dl - BLOCK_BYTES * b;
            if DIRENT_BYTES * j <= room && DIRENT_BYTES <= room - DIRENT_BYTES * j {
                let o = BLOCK_BYTES * b + DIRENT_BYTES * j;
                let inum = rd_u32(d, o);
                if inum != 0 && name_matches(d, o + 6, name) {
                    proof {
                        assert(entry_named(d@, b as int, j as int, name@));
                        assert forall|b2: int, j2: int| 0 <= b2 && 0 <= j2 < DIRENTS_PER_BLOCK
                            && entry_rank(b2, j2) < entry_rank(b as int, j as int)
                            implies !#[trigger] entry_named(d@, b2, j2, name@) by {
                            if b2 >= b {
                                assert(b2 == b);
                            }
                        }
                    }
                    return Some(inum);
                }
            }
            proof {
                assert(!entry_named(d@, b as int, j as int, name@));
            }
            j = j + 1;
        }
        b = b + 1;
    }
    proof {
        assert forall|b2: int, j2: int| 0 <= b2 && 0 <= j2 < DIRENTS_PER_BLOCK implies !#[trigger] entry_named(d@, b2, j2, name@) by {
            if b2 > nblocks {
                assert(entry_offset(b2, j2) + DIRENT_BYTES > d@.len()) by (nonlinear_arith)
                    requires
                        b2 > d@.len() / 512,
                        j2 >= 0,
                        entry_offset(b2, j2) == 512 * b2 + 20 * j2,
                ;
            }
        }
    }
    None
}

/// Whether the 14-byte name at `o` (up to its first NUL) is `name`.
fn name_matches(d: &[u8], o: usize, name: &[u8]) -> (r: bool)
    requires
        o + 14 <= d@.len(),
    ensures
        r == (cname(d@.subrange(o as int, o + 14)) == name@),
{
    let dl = d.len();
    let mut n: usize = 0;
    while n < 14 && d[o + n] != 0
        invariant
            dl == d@.len(),
            o + 14 <= d@.len(),
            n <= 14,
            forall|k: int| 0 <= k < n ==> #[trigger] d@.subrange(o as int, o + 14)[k] != 0,
        decreases 14 - n,
    {
        n = n + 1;
    }
    proof {
        crate::fs::dentry::lemma_nul_len_unique_pub(d@.subrange(o as int, o + 14), n as int);
    }
    if n != name.len() {
        return false;
    }
    let mut k: usize = 0;
    while k < n
        invariant
            dl == d@.len(),
            o + 14 <= d@.len(),
            n <= 14,
            n == name@.len(),
            nul_len(d@.subrange(o as int, o + 14)) == n,
            k <= n,
            forall|x: int| 0 <= x < k ==> d@.subrange(o as int, o + 14)[x] == #[trigger] name@[x],
        decreases n - k,
    {
        if d[o + k] != name[k] {
            proof {
                assert(cname(d@.subrange(o as int, o + 14))[k as int] == d@[o + k]);
            }
            return false;
        }
        k = k + 1;
    }
    proof {
        assert(cname(d@.subrange(o as int, o + 14)) =~= name@);
    }
    true
}

}
