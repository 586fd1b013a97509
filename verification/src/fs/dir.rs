//! Directory entries of fixed size and the splitting and walking of absolute paths.
//! A directory's data is a run of entries, each naming an inode; only absolute paths
//! are understood.
use vstd::prelude::*;

verus! {

/// Longest name a directory entry holds, in bytes.
pub const MAX_NAME: usize = 14;

/// Bytes taken by one entry: inode number, name length, name.
pub const DIRENT_SIZE: usize = 20;

/// Entries that fit in one 512-byte block.
pub const DIRENTS_PER_BLOCK: usize = 25;

/// Most components a path may have.
pub const MAX_PATH_DEPTH: usize = 16;

/// Inode number of the root directory.
pub const ROOTINO: u32 = 1;

/// One directory entry as stored on disk.
pub struct DirEntry {
    /// The inode it names; 0 marks a free entry.
    pub inum: u32,
    /// Length of the name.
    pub namelen: u16,
    /// The name, not terminated: `namelen` says how much of it counts.
    pub name: [u8; 14],
}

impl DirEntry {
    /// The name as a sequence of bytes.
    pub open spec fn name_view(&self) -> Seq<u8> {
        self.name@.subrange(0, if self.namelen <= MAX_NAME { self.namelen as int } else { MAX_NAME as int })
    }

    /// An entry naming nothing.
    pub fn empty() -> (r: DirEntry)
        ensures
            r.inum == 0,
            r.namelen == 0,
            forall|i: int| 0 <= i < MAX_NAME ==> r.name@[i] == 0,
    {
        DirEntry { inum: 0, namelen: 0, name: [0u8; 14] }
    }

    /// Whether the entry is free for reuse.
    pub fn is_empty(&self) -> (r: bool)
        ensures
            r == (self.inum == 0),
    {
        self.inum == 0
    }

    /// Whether the name is exactly `target`, compared byte by byte.
    pub fn name_eq(&self, target: &[u8]) -> (r: bool)
        requires
            target@.len() == self.namelen ==> self.namelen <= MAX_NAME,
        ensures
            r == (target@.len() == self.namelen && target@ == self.name_view()),
    {
        if target.len() != self.namelen as usize {
            return false;
        }
        let mut i: usize = 0;
        while i < target.len()
            invariant
                target@.len() == self.namelen,
                self.namelen <= MAX_NAME,
                i <= target@.len(),
                forall|k: int| 0 <= k < i ==> target@[k] == self.name@[k],
            decreases target@.len() - i,
        {
            if self.name[i] != target[i] {
                proof {
                    assert(self.name_view()[i as int] == self.name@[i as int]);
                }
                return false;
            }
            i = i + 1;
        }
        proof {
            assert(target@ =~= self.name_view());
        }
        true
    }

    /// The bytes of the name.
    pub fn name_bytes(&self) -> (r: Vec<u8>)
        ensures
            r@ == self.name_view(),
    {
        let n: usize = if (self.namelen as usize) < MAX_NAME { self.namelen as usize } else { MAX_NAME };
        let mut r: Vec<u8> = Vec::new();
        let mut i: usize = 0;
        while i < n
            invariant
                n <= MAX_NAME,
                n == if self.namelen <= MAX_NAME { self.namelen as int } else { MAX_NAME as int },
                i <= n,
                r@ == self.name@.subrange(0, i as int),
            decreases n - i,
        {
            r.push(self.name[i]);
            proof {
                assert(r@ =~= self.name@.subrange(0, i + 1));
            }
            i = i + 1;
        }
        r
    }

    /// Sets the name to `name`, padding the rest with zeros. A name longer than
    /// `MAX_NAME` is refused (returns false, entry unchanged) rather than cut short, which
    /// would make two different names equal.
    pub fn set_name(&mut self, name: &[u8]) -> (ok: bool)
        ensures
            ok == (name@.len() <= MAX_NAME),
            final(self).inum == old(self).inum,
            ok ==> final(self).namelen == name@.len() && final(self).name_view() == name@
                && forall|i: int| name@.len() <= i < MAX_NAME ==> final(self).name@[i] == 0,
            !ok ==> *final(self) == *old(self),
    {
        if name.len() > MAX_NAME {
            return false;
        }
        self.namelen = name.len() as u16;
        self.name = [0u8; 14];
        let mut i: usize = 0;
        while i < name.len()
            invariant
                name@.len() <= MAX_NAME,
                self.namelen == name@.len(),
                self.inum == old(self).inum,
                i <= name@.len(),
                forall|k: int| 0 <= k < i ==> self.name@[k] == name@[k],
                forall|k: int| i <= k < MAX_NAME ==> self.name@[k] == 0,
            decreases name@.len() - i,
        {
            self.name[i] = name[i];
            i = i + 1;
        }
        proof {
            assert(self.name_view() =~= name@);
        }
        true
    }
}

/// Why a path could not be split or walked.
#[derive(PartialEq, Eq, Structural, Clone, Copy, Debug)]
pub enum PathError {
    /// The path does not start with '/'.
    NotAbsolute,
    /// Two slashes in a row before the end ("a//b").
    EmptyComponent,
    /// A component names nothing in its directory.
    NotFound,
    /// More than `MAX_PATH_DEPTH` components.
    TooLong,
}

/// Position of the first '/' in `p` at or after `from`, or the length of `p`.
pub open spec fn next_slash(p: Seq<u8>, from: int) -> int
    decreases p.len() - from,
{
    if from >= p.len() {
        p.len() as int
    } else if p[from] == 0x2f {
        from
    } else {
        next_slash(p, from + 1)
    }
}

/// The components of `p` from position `from` on, `n` of them having come before: each
/// runs up to the next '/', none may be empty except after a final '/', and there may be
/// at most `MAX_PATH_DEPTH` in all.
pub open spec fn components_from(p: Seq<u8>, from: int, n: nat) -> Result<Seq<Seq<u8>>, PathError>
    decreases p.len() - from, 1int,
{
    if from > p.len() {
        Ok(Seq::empty())
    } else {
        let e = next_slash(p, from);
        if e == from {
            if e == p.len() { Ok(Seq::empty()) } else { Err(PathError::EmptyComponent) }
        } else if n >= MAX_PATH_DEPTH {
            Err(PathError::TooLong)
        } else if e >= p.len() {
            Ok(seq![p.subrange(from, e)])
        } else {
            components_after(p, from, e, n)
        }
    }
}

/// The component `p[from..e]` followed by the components after the slash at `e`.
pub open spec fn components_after(p: Seq<u8>, from: int, e: int, n: nat) -> Result<Seq<Seq<u8>>, PathError>
    decreases p.len() - from, 0int,
{
    if from < e < p.len() {
        match components_from(p, e + 1, n + 1) {
            Ok(rest) => Ok(seq![p.subrange(from, e)] + rest),
            Err(x) => Err(x),
        }
    } else {
        Err(PathError::EmptyComponent)
    }
}

/// The components of absolute path `p`.
pub open spec fn split_spec(p: Seq<u8>) -> Result<Seq<Seq<u8>>, PathError> {
    if p.len() == 0 || p[0] != 0x2f {
        Err(PathError::NotAbsolute)
    } else {
        components_from(p, 1, 0)
    }
}

proof fn lemma_next_slash(p: Seq<u8>, from: int)
    requires
        0 <= from <= p.len(),
    ensures
        from <= next_slash(p, from) <= p.len(),
        next_slash(p, from) < p.len() ==> p[next_slash(p, from)] == 0x2f,
        forall|k: int| from <= k < next_slash(p, from) ==> p[k] != 0x2f,
    decreases p.len() - from,
{
    if from < p.len() && p[from] != 0x2f {
        lemma_next_slash(p, from + 1);
    }
}

fn find_slash(p: &[u8], from: usize) -> (e: usize)
    requires
        from <= p@.len(),
    ensures
        e == next_slash(p@, from as int),
{
    let mut e = from;
    while e < p.len() && p[e] != 0x2f
        invariant
            from <= e <= p@.len(),
            next_slash(p@, from as int) == next_slash(p@, e as int),
        decreases p@.len() - e,
    {
        e = e + 1;
    }
    e
}

fn copy_range(p: &[u8], a: usize, b: usize) -> (r: Vec<u8>)
    requires
        a <= b <= p@.len(),
    ensures
        r@ == p@.subrange(a as int, b as int),
{
    let mut r: Vec<u8> = Vec::new();
    let mut i = a;
    while i < b
        invariant
            a <= i <= b,
            b <= p@.len(),
            r@ == p@.subrange(a as int, i as int),
        decreases b - i,
    {
        r.push(p[i]);
        proof {
            assert(r@ =~= p@.subrange(a as int, i + 1));
        }
        i = i + 1;
    }
    r
}

/// The bytes of each element of `v`.
pub open spec fn byte_seqs(v: Seq<Vec<u8>>) -> Seq<Seq<u8>> {
    v.map_values(|c: Vec<u8>| c@)
}

/// Splits an absolute path into its components. A final '/' is allowed; an empty
/// component elsewhere, a relative path and more than `MAX_PATH_DEPTH` components are
/// refused, whichever comes first from the left.
pub fn split_path(path: &[u8]) -> (r: Result<Vec<Vec<u8>>, PathError>)
    ensures
        match r {
            Ok(v) => split_spec(path@) == Ok::<Seq<Seq<u8>>, PathError>(byte_seqs(v@)),
            Err(x) => split_spec(path@) == Err::<Seq<Seq<u8>>, PathError>(x),
        },
{
    if path.len() == 0 || path[0] != 0x2f {
        return Err(PathError::NotAbsolute);
    }
    let mut out: Vec<Vec<u8>> = Vec::new();
    let mut start: usize = 1;
    loop
        invariant
            1 <= start <= path@.len() + 1,
            path@.len() > 0 && path@[0] == 0x2f,
            out@.len() <= MAX_PATH_DEPTH,
            split_spec(path@) == match components_from(path@, start as int, out@.len() as nat) {
                Ok(rest) => Ok::<Seq<Seq<u8>>, PathError>(byte_seqs(out@) + rest),
                Err(x) => Err(x),
            },
        decreases path@.len() + 1 - start,
    {
        if start > path.len() {
            proof {
                assert(byte_seqs(out@) + Seq::<Seq<u8>>::empty() =~= byte_seqs(out@));
            }
            return Ok(out);
        }
        let e = find_slash(path, start);
        proof {
            lemma_next_slash(path@, start as int);
        }
        if e == start {
            if e == path.len() {
                proof {
                    assert(byte_seqs(out@) + Seq::<Seq<u8>>::empty() =~= byte_seqs(out@));
                }
                return Ok(out);
            }
            return Err(PathError::EmptyComponent);
        }
        if out.len() >= MAX_PATH_DEPTH {
            return Err(PathError::TooLong);
        }
        let comp = copy_range(path, start, e);
        let ghost before = out@;
        out.push(comp);
        proof {
            assert(byte_seqs(out@) =~= byte_seqs(before) + seq![path@.subrange(start as int, e as int)]);
        }
        if e >= path.len() {
            proof {
                assert(byte_seqs(before) + seq![path@.subrange(start as int, e as int)] =~= byte_seqs(out@));
            }
            return Ok(out);
        }
        proof {
            match components_from(path@, e + 1, out@.len() as nat) {
                Ok(rest) => {
                    assert(byte_seqs(before) + (seq![path@.subrange(start as int, e as int)] + rest)
                        =~= byte_seqs(out@) + rest);
                },
                Err(x) => {},
            }
        }
        start = e + 1;
    }
}

/// Directory lookups that a walk over a path can make: the inode that name `name` has
/// in directory `dir`, if any.
pub trait DirLookup {
    spec fn entry(&self, dir: u32, name: Seq<u8>) -> Option<u32>;

    fn lookup(&mut self, dir: u32, name: &[u8]) -> (r: Option<u32>)
        ensures
            r == old(self).entry(dir, name@),
            final(self).entry(dir, name@) == old(self).entry(dir, name@),
            forall|d: u32, n: Seq<u8>| #[trigger] final(self).entry(d, n) == old(self).entry(d, n);
}

/// Where a walk from directory `dir` through `names` arrives.
pub open spec fn walk<L: DirLookup>(l: L, dir: u32, names: Seq<Seq<u8>>) -> Result<u32, PathError>
    decreases names.len(),
{
    if names.len() == 0 {
        Ok(dir)
    } else {
        match l.entry(dir, names[0]) {
            Some(next) => walk(l, next, names.drop_first()),
            None => Err(PathError::NotFound),
        }
    }
}

/// Resolves an absolute path to an inode number: splits it and looks each component up
/// in the directory the previous one named, starting from the root.
pub fn resolve<L: DirLookup>(path: &[u8], l: &mut L) -> (r: Result<u32, PathError>)
    ensures
        forall|d: u32, n: Seq<u8>| #[trigger] final(l).entry(d, n) == old(l).entry(d, n),
        r == match split_spec(path@) {
            Ok(names) => walk(*old(l), ROOTINO, names),
            Err(x) => Err::<u32, PathError>(x),
        },
{
    let names = match split_path(path) {
        Ok(v) => v,
        Err(x) => return Err(x),
    };
    let ghost all = byte_seqs(names@);
    let ghost l0 = *l;
    let mut cur: u32 = ROOTINO;
    let mut i: usize = 0;
    proof {
        assert(all.subrange(0, all.len() as int) =~= all);
    }
    while i < names.len()
        invariant
            l0 == *old(l),
            split_spec(path@) == Ok::<Seq<Seq<u8>>, PathError>(all),
            all == byte_seqs(names@),
            i <= names@.len(),
            forall|d: u32, n: Seq<u8>| #[trigger] l.entry(d, n) == l0.entry(d, n),
            walk(l0, ROOTINO, all) == walk(l0, cur, all.subrange(i as int, all.len() as int)),
        decreases names@.len() - i,
    {
        proof {
            let rest = all.subrange(i as int, all.len() as int);
            assert(rest.drop_first() =~= all.subrange(i + 1, all.len() as int));
            assert(rest[0] == names@[i as int]@);
        }
        match l.lookup(cur, names[i].as_slice()) {
            Some(next) => {
                cur = next;
            },
            None => {
                return Err(PathError::NotFound);
            },
        }
        i = i + 1;
    }
    proof {
        assert(all.subrange(i as int, all.len() as int) =~= Seq::<Seq<u8>>::empty());
    }
    Ok(cur)
}

/// A directory tree kept in memory: (directory, name, inode) triples.
pub struct DirTable {
    pub entries: Vec<(u32, Vec<u8>, u32)>,
}

impl DirLookup for DirTable {
    open spec fn entry(&self, dir: u32, name: Seq<u8>) -> Option<u32> {
        if exists|k: int| 0 <= k < self.entries@.len() && self.entries@[k].0 == dir && #[trigger] self.entries@[k].1@ == name {
            let k = choose|k: int| 0 <= k < self.entries@.len() && self.entries@[k].0 == dir && #[trigger] self.entries@[k].1@ == name
                && forall|j: int| 0 <= j < k ==> !(self.entries@[j].0 == dir && #[trigger] self.entries@[j].1@ == name);
            Some(self.entries@[k].2)
        } else {
            None
        }
    }

    fn lookup(&mut self, dir: u32, name: &[u8]) -> (r: Option<u32>) {
        let mut k: usize = 0;
        while k < self.entries.len()
            invariant
                k <= self.entries@.len(),
                forall|j: int| 0 <= j < k ==> !(self.entries@[j].0 == dir && #[trigger] self.entries@[j].1@ == name@),
            decreases self.entries@.len() - k,
        {
            if self.entries[k].0 == dir && bytes_eq(self.entries[k].1.as_slice(), name) {
                proof {
                    let w = k as int;
                    let c = choose|c: int| 0 <= c < self.entries@.len() && self.entries@[c].0 == dir && #[trigger] self.entries@[c].1@ == name@
                        && forall|j: int| 0 <= j < c ==> !(self.entries@[j].0 == dir && #[trigger] self.entries@[j].1@ == name@);
                    assert(c == w) by {
                        if c < w {
                        } else if c > w {
                            assert(!(self.entries@[w].0 == dir && self.entries@[w].1@ == name@));
                        }
                    }
                }
                return Some(self.entries[k].2);
            }
            k = k + 1;
        }
        None
    }
}

/// Byte-wise equality of two byte strings.
pub fn bytes_eq(a: &[u8], b: &[u8]) -> (r: bool)
    ensures
        r == (a@ == b@),
{
    if a.len() != b.len() {
        return false;
    }
    let mut i: usize = 0;
    while i < a.len()
        invariant
            a@.len() == b@.len(),
            i <= a@.len(),
            forall|k: int| 0 <= k < i ==> a@[k] == b@[k],
        decreases a@.len() - i,
    {
        if a[i] != b[i] {
            return false;
        }
        i = i + 1;
    }
    proof {
        assert(a@ =~= b@);
    }
    true
}

}
