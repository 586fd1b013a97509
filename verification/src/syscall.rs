//! System call numbers and the table that sends each to its handler.
use vstd::prelude::*;

verus! {

/// The system calls, in the order of their numbers from 1.
#[derive(PartialEq, Eq, Structural, Clone, Copy, Debug)]
pub enum Syscall {
    Brk,
    Mmap,
    Munmap,
    PrintStr,
    PrintInt,
    GetPid,
    Fork,
    Wait,
    Exit,
    Sleep,
}

/// The call that number `n` names.
pub open spec fn call_of(n: usize) -> Option<Syscall> {
    if n == 1 { Some(Syscall::Brk) }
    else if n == 2 { Some(Syscall::Mmap) }
    else if n == 3 { Some(Syscall::Munmap) }
    else if n == 4 { Some(Syscall::PrintStr) }
    else if n == 5 { Some(Syscall::PrintInt) }
    else if n == 6 { Some(Syscall::GetPid) }
    else if n == 7 { Some(Syscall::Fork) }
    else if n == 8 { Some(Syscall::Wait) }
    else if n == 9 { Some(Syscall::Exit) }
    else if n == 10 { Some(Syscall::Sleep) }
    else { None }
}

/// The handler for call number `n`; `None` for an unknown number, which the kernel
/// treats as fatal.
pub fn dispatch(n: usize) -> (r: Option<Syscall>)
    ensures
        r == call_of(n),
{
    match n {
        1 => Some(Syscall::Brk),
        2 => Some(Syscall::Mmap),
        3 => Some(Syscall::Munmap),
        4 => Some(Syscall::PrintStr),
        5 => Some(Syscall::PrintInt),
        6 => Some(Syscall::GetPid),
        7 => Some(Syscall::Fork),
        8 => Some(Syscall::Wait),
        9 => Some(Syscall::Exit),
        10 => Some(Syscall::Sleep),
        _ => None,
    }
}

/// A failed call's result: a bad argument.
pub const E_BADARG: isize = -1;

/// What `getpid` returns for the calling process.
pub fn getpid(pid: usize) -> (r: isize)
    requires
        pid <= isize::MAX,
    ensures
        r == pid,
{
    pid as isize
}

/// What `fork` returns to the parent: the child's pid, or the error when no child could
/// be made.
pub fn fork(child: Option<usize>) -> (r: isize)
    requires
        child matches Some(c) ==> c <= isize::MAX,
    ensures
        r == match child { Some(c) => c as int, None => E_BADARG as int },
{
    match child {
        Some(c) => c as isize,
        None => E_BADARG,
    }
}

}
