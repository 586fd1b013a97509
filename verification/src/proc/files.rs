//! A process's open files: a small table of file descriptors.
use vstd::prelude::*;

verus! {

/// File descriptors of a process.
pub const N_FD: usize = 10;

/// Puts `file` in the lowest free descriptor and returns it; when every descriptor is
/// taken the file is handed back.
pub fn fd_alloc<F>(files: &mut Vec<Option<F>>, file: F) -> (r: Result<usize, F>)
    ensures
        final(files)@.len() == old(files)@.len(),
        r matches Ok(fd) ==> fd < old(files)@.len() && old(files)@[fd as int] is None
            && (forall|k: int| 0 <= k < fd ==> old(files)@[k] is Some)
            && final(files)@ == old(files)@.update(fd as int, Some(file)),
        r matches Err(f) ==> f == file && (forall|k: int| 0 <= k < old(files)@.len() ==> old(files)@[k] is Some)
            && final(files)@ == old(files)@,
{
    let mut fd: usize = 0;
    while fd < files.len()
        invariant
            files@ == old(files)@,
            fd <= files@.len(),
            forall|k: int| 0 <= k < fd ==> files@[k] is Some,
        decreases files@.len() - fd,
    {
        if files[fd].is_none() {
            files.set(fd, Some(file));
            return Ok(fd);
        }
        fd = fd + 1;
    }
    Err(file)
}

/// The file open as descriptor `fd`, if any.
pub fn fd_get<F>(files: &Vec<Option<F>>, fd: usize) -> (r: Option<&F>)
    ensures
        fd < files@.len() && files@[fd as int] is Some ==> r == Some(&files@[fd as int]->Some_0),
        !(fd < files@.len() && files@[fd as int] is Some) ==> r is None,
{
    if fd >= files.len() {
        return None;
    }
    match &files[fd] {
        Some(f) => Some(f),
        None => None,
    }
}

}
