//! Reading ELF64 executables: the header, the program headers, and the checks that keep
//! what is loaded inside the user address space.
use vstd::prelude::*;
use crate::mm::vm::{PTE_R, PTE_W, PTE_X, PTE_U};

verus! {

/// Class byte of a 64-bit file.
pub const ELFCLASS64: u8 = 2;
/// Data byte of a little-endian file.
pub const ELF_DATA: u8 = 1;
/// Machine number of RISC-V.
pub const ELF_MACHINE: u16 = 243;
/// Program header type of a loadable segment.
pub const PT_LOAD: u32 = 1;
pub const PF_X: u32 = 1;
pub const PF_W: u32 = 2;
pub const PF_R: u32 = 4;
/// Lowest user address: page 0 stays unmapped so that null dereferences fault.
pub const USER_MIN: u64 = 0x1000;
/// End of the user address space: the lowest device address.
pub const USER_MAX: u64 = 0x0200_0000;

/// Why an image cannot be loaded.
#[derive(PartialEq, Eq, Structural, Clone, Copy, Debug)]
pub enum ElfError {
    TooSmall,
    BadMagic,
    Not64,
    NotLittleEndian,
    WrongMachine,
    OutOfUserRange,
    LoadFailed,
    NoLoadableSegment,
}

/// What the loader needs of the ELF header.
#[derive(Clone, Copy)]
pub struct ElfHeader {
    pub entry: u64,
    pub phoff: u64,
    pub phnum: u16,
    pub phentsize: u16,
}

/// One program header.
#[derive(Clone, Copy)]
pub struct LoadSegment {
    pub offset: u64,
    pub vaddr: u64,
    pub filesz: u64,
    pub memsz: u64,
    pub flags: u32,
}

/// The number the bytes `s` spell, least significant first.
pub open spec fn le(s: Seq<u8>) -> nat
    decreases s.len(),
{
    if s.len() == 0 { 0 } else { s[0] as nat + 256 * le(s.drop_first()) }
}

pub proof fn lemma_le2(s: Seq<u8>)
    requires
        s.len() == 2,
    ensures
        le(s) == s[0] + 256 * s[1],
{
    reveal_with_fuel(le, 3);
    assert(s.drop_first().drop_first() =~= Seq::<u8>::empty());
}

pub proof fn lemma_le4(s: Seq<u8>)
    requires
        s.len() == 4,
    ensures
        le(s) == s[0] + 256 * (s[1] + 256 * (s[2] + 256 * s[3])),
{
    reveal_with_fuel(le, 5);
    assert(s.drop_first().drop_first().drop_first().drop_first() =~= Seq::<u8>::empty());
}

pub proof fn lemma_le8(s: Seq<u8>)
    requires
        s.len() == 8,
    ensures
        le(s) == s[0] + 256 * (s[1] + 256 * (s[2] + 256 * (s[3] + 256 * le(s.subrange(4, 8))))),
{
    reveal_with_fuel(le, 5);
    let t = s.drop_first().drop_first().drop_first().drop_first();
    assert(t =~= s.subrange(4, 8));
}

/// Little-endian u16 at `off`.
pub fn rd_u16(b: &[u8], off: usize) -> (r: u16)
    requires
        off + 2 <= b@.len(),
    ensures
        r == le(b@.subrange(off as int, off + 2)),
{
    let x0 = b[off];
    let x1 = b[off + 1];
    proof {
        lemma_le2(b@.subrange(off as int, off + 2));
    }
    (x0 as u16) + 256 * (x1 as u16)
}

/// Little-endian u32 at `off`.
pub fn rd_u32(b: &[u8], off: usize) -> (r: u32)
    requires
        off + 4 <= b@.len(),
    ensures
        r == le(b@.subrange(off as int, off + 4)),
{
    let x0 = b[off] as u32;
    let x1 = b[off + 1] as u32;
    let x2 = b[off + 2] as u32;
    let x3 = b[off + 3] as u32;
    proof {
        lemma_le4(b@.subrange(off as int, off + 4));
    }
    x0 + 256 * (x1 + 256 * (x2 + 256 * x3))
}

/// Little-endian u64 at `off`.
pub fn rd_u64(b: &[u8], off: usize) -> (r: u64)
    requires
        off + 8 <= b@.len(),
    ensures
        r == le(b@.subrange(off as int, off + 8)),
{
    let n = b.len();
    let lo = rd_u32(b, off) as u64;
    let hi = rd_u32(b, off + 4) as u64;
    proof {
        let s = b@.subrange(off as int, off + 8);
        lemma_le8(s);
        lemma_le4(s.subrange(0, 4));
        assert(s.subrange(0, 4) =~= b@.subrange(off as int, off + 4));
        assert(s.subrange(4, 8) =~= b@.subrange(off + 4, off + 8));
        lemma_le4(s.subrange(4, 8));
    }
    lo + 4294967296 * hi
}

/// The header of `image`, or why it is not a RISC-V ELF64 little-endian executable,
/// checked in this order: at least 64 bytes, the magic, 64-bit class, little endian,
/// machine.
pub open spec fn header_spec(image: Seq<u8>) -> Result<ElfHeader, ElfError> {
    if image.len() < 64 {
        Err(ElfError::TooSmall)
    } else if !(image[0] == 0x7f && image[1] == 0x45 && image[2] == 0x4c && image[3] == 0x46) {
        Err(ElfError::BadMagic)
    } else if image[4] != ELFCLASS64 {
        Err(ElfError::Not64)
    } else if image[5] != ELF_DATA {
        Err(ElfError::NotLittleEndian)
    } else if le(image.subrange(18, 20)) != ELF_MACHINE {
        Err(ElfError::WrongMachine)
    } else {
        Ok(ElfHeader {
            entry: le(image.subrange(24, 32)) as u64,
            phoff: le(image.subrange(32, 40)) as u64,
            phentsize: le(image.subrange(54, 56)) as u16,
            phnum: le(image.subrange(56, 58)) as u16,
        })
    }
}

/// Reads the ELF header at the start of `image`.
pub fn parse_header(image: &[u8]) -> (r: Result<ElfHeader, ElfError>)
    ensures
        r == header_spec(image@),
{
    if image.len() < 64 {
        return Err(ElfError::TooSmall);
    }
    if !(image[0] == 0x7f && image[1] == 0x45 && image[2] == 0x4c && image[3] == 0x46) {
        return Err(ElfError::BadMagic);
    }
    if image[4] != ELFCLASS64 {
        return Err(ElfError::Not64);
    }
    if image[5] != ELF_DATA {
        return Err(ElfError::NotLittleEndian);
    }
    if rd_u16(image, 18) != ELF_MACHINE {
        return Err(ElfError::WrongMachine);
    }
    Ok(ElfHeader {
        entry: rd_u64(image, 24),
        phoff: rd_u64(image, 32),
        phentsize: rd_u16(image, 54),
        phnum: rd_u16(image, 56),
    })
}

/// Where program header `i` starts.
pub open spec fn ph_offset(hdr: ElfHeader, i: int) -> int {
    hdr.phoff + i * hdr.phentsize
}

/// Reads program header `i`. `TooSmall` when it does not lie wholly in `image`.
pub fn parse_segment(image: &[u8], hdr: &ElfHeader, i: usize) -> (r: Result<LoadSegment, ElfError>)
    requires
        ph_offset(*hdr, i as int) + 56 <= usize::MAX,
    ensures
        ({
            let off = ph_offset(*hdr, i as int);
            if off + 56 > image@.len() {
                r == Err::<LoadSegment, ElfError>(ElfError::TooSmall)
            } else {
                r == Ok::<LoadSegment, ElfError>(LoadSegment {
                    flags: le(image@.subrange(off + 4, off + 8)) as u32,
                    offset: le(image@.subrange(off + 8, off + 16)) as u64,
                    vaddr: le(image@.subrange(off + 16, off + 24)) as u64,
                    filesz: le(image@.subrange(off + 32, off + 40)) as u64,
                    memsz: le(image@.subrange(off + 40, off + 48)) as u64,
                })
            }
        }),
{
    proof {
        assert(0 <= i * hdr.phentsize) by (nonlinear_arith);
    }
    let step = i * hdr.phentsize as usize;
    let off = hdr.phoff as usize + step;
    if off + 56 > image.len() {
        return Err(ElfError::TooSmall);
    }
    Ok(LoadSegment {
        flags: rd_u32(image, off + 4),
        offset: rd_u64(image, off + 8),
        vaddr: rd_u64(image, off + 16),
        filesz: rd_u64(image, off + 32),
        memsz: rd_u64(image, off + 40),
    })
}

/// The page permissions for segment flags: read, write and execute as the flags say,
/// and always user.
pub fn perm_of(flags: u32) -> (p: u64)
    ensures
        p == (if flags & PF_R != 0 { PTE_R } else { 0 }) | (if flags & PF_W != 0 { PTE_W } else { 0 })
            | (if flags & PF_X != 0 { PTE_X } else { 0 }) | PTE_U,
{
    let r: u64 = if flags & PF_R != 0 { PTE_R } else { 0 };
    let w: u64 = if flags & PF_W != 0 { PTE_W } else { 0 };
    let x: u64 = if flags & PF_X != 0 { PTE_X } else { 0 };
    r | w | x | PTE_U
}

/// Refuses an entry point outside the user address space: a valid set of segments with
/// an entry into the kernel would hand the kernel's privilege to the program.
pub fn check_entry(entry: u64) -> (r: Result<(), ElfError>)
    ensures
        r is Ok <==> USER_MIN <= entry < USER_MAX,
        r is Err ==> r == Err::<(), ElfError>(ElfError::OutOfUserRange),
{
    if entry < USER_MIN || entry >= USER_MAX {
        return Err(ElfError::OutOfUserRange);
    }
    Ok(())
}

/// Refuses a segment that does not lie inside the user address space, or whose file
/// part is larger than its memory part.
pub fn check_segment(seg: &LoadSegment) -> (r: Result<(), ElfError>)
    ensures
        r is Ok <==> USER_MIN <= seg.vaddr && seg.vaddr + seg.memsz <= USER_MAX && seg.filesz <= seg.memsz,
        r is Err ==> r == Err::<(), ElfError>(ElfError::OutOfUserRange),
{
    if seg.vaddr < USER_MIN || seg.vaddr > USER_MAX || seg.memsz > USER_MAX - seg.vaddr || seg.filesz > seg.memsz {
        return Err(ElfError::OutOfUserRange);
    }
    Ok(())
}

}
