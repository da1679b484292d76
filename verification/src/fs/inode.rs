//! Files and directories.
use super::path::{is_key, key, Path};
use crate::error::KernelError;
use vstd::prelude::*;

verus! {

/// Type of an inode that is not in use.
pub const T_FREE: u16 = 0;

/// Type of a directory.
pub const T_DIR: u16 = 1;

/// Type of a file.
pub const T_FILE: u16 = 2;

/// Type of a device.
pub const T_DEVICE: u16 = 3;

/// The number of the root directory.
pub const ROOT_INO: usize = 1;

/// `.`
pub const DOT: u8 = 0x2e;

/// An entry of a directory; one that names inode 0 is free.
#[derive(Debug)]
pub struct DirEntry {
    pub ino: usize,
    pub name: Vec<u8>,
}

/// What a [`DirEntry`] stands for.
pub struct Entry {
    pub ino: int,
    pub name: Seq<u8>,
}

/// A file, a directory or a device.
#[derive(Debug)]
pub struct Inode {
    /// The device that it is on.
    pub dev: u32,
    pub ty: u16,
    pub major: u32,
    pub minor: u16,
    /// How many directory entries name it.
    pub nlink: u16,
    /// The entries, if it is a directory.
    pub entries: Vec<DirEntry>,
}

/// What an [`Inode`] stands for.
#[verifier::ext_equal]
pub struct InodeView {
    pub dev: u32,
    pub ty: u16,
    pub major: u32,
    pub minor: u16,
    pub nlink: u16,
    pub entries: Seq<Entry>,
}

/// What a list of entries stands for.
pub open spec fn entries_view(entries: Seq<DirEntry>) -> Seq<Entry> {
    Seq::new(entries.len(), |i: int| entries[i]@)
}

/// What a list of inodes stands for.
pub open spec fn inodes_view(inodes: Seq<Inode>) -> Seq<InodeView> {
    Seq::new(inodes.len(), |i: int| inodes[i]@)
}

impl DirEntry {
    pub open spec fn view(&self) -> Entry {
        Entry { ino: self.ino as int, name: self.name@ }
    }
}

impl Inode {
    pub open spec fn view(&self) -> InodeView {
        InodeView {
            dev: self.dev,
            ty: self.ty,
            major: self.major,
            minor: self.minor,
            nlink: self.nlink,
            entries: entries_view(self.entries@),
        }
    }
}

/// Whether an entry is in use and has the name.
pub open spec fn has_name(e: Entry, name: Seq<u8>) -> bool {
    e.ino != 0 && e.name == key(name)
}

/// The first of the entries from the `k`-th on that has the name.
pub open spec fn find_entry(entries: Seq<Entry>, name: Seq<u8>, k: nat) -> Option<int>
    decreases entries.len() - k,
{
    if k >= entries.len() {
        None
    } else if has_name(entries[k as int], name) {
        Some(k as int)
    } else {
        find_entry(entries, name, k + 1)
    }
}

/// The first free one of the entries from the `k`-th on; the number of entries if
/// there is none.
pub open spec fn free_entry(entries: Seq<Entry>, k: nat) -> nat
    decreases entries.len() - k,
{
    if k >= entries.len() {
        entries.len()
    } else if entries[k as int].ino == 0 {
        k
    } else {
        free_entry(entries, k + 1)
    }
}

/// The entries with one more, in the first free place.
pub open spec fn with_entry(entries: Seq<Entry>, e: Entry) -> Seq<Entry> {
    let k = free_entry(entries, 0);
    if k < entries.len() {
        entries.update(k as int, e)
    } else {
        entries.push(e)
    }
}

/// Whether a directory has no entries other than `.` and `..`.
pub open spec fn is_empty_dir(entries: Seq<Entry>) -> bool {
    forall|k: int| 2 <= k < entries.len() ==> (#[trigger] entries[k]).ino == 0
}

/// The inode that a name leads to from a directory.
pub open spec fn step(inodes: Seq<InodeView>, dir: int, name: Seq<u8>) -> Result<int, KernelError> {
    if inodes[dir].ty != T_DIR {
        Err(KernelError::NonDirectoryPathComponent)
    } else {
        match find_entry(inodes[dir].entries, name, 0) {
            Some(k) => Ok(inodes[dir].entries[k].ino),
            None => Err(KernelError::FsEntryNotFound),
        }
    }
}

/// The inode that names lead to, one after another.
pub open spec fn walk(inodes: Seq<InodeView>, start: int, names: Seq<Seq<u8>>) -> Result<
    int,
    KernelError,
>
    decreases names.len(),
{
    if names.len() == 0 {
        Ok(start)
    } else {
        match walk(inodes, start, names.drop_last()) {
            Ok(dir) => step(inodes, dir, names.last()),
            Err(e) => Err(e),
        }
    }
}

/// Where a path begins.
pub open spec fn start_of(absolute: bool, cwd: int) -> int {
    if absolute {
        ROOT_INO as int
    } else {
        cwd
    }
}

/// How many of the first `n` entries, `.` and `..` not counted, name an inode.
pub open spec fn named_in(entries: Seq<Entry>, n: nat, ino: int) -> nat
    decreases n,
{
    if n <= 2 {
        0
    } else {
        named_in(entries, (n - 1) as nat, ino) + if entries[n - 1].ino == ino {
            1nat
        } else {
            0
        }
    }
}

/// How many entries of the first `n` inodes name an inode.
pub open spec fn named(inodes: Seq<InodeView>, n: nat, ino: int) -> nat
    decreases n,
{
    if n == 0 {
        0
    } else {
        named(inodes, (n - 1) as nat, ino) + named_in(
            inodes[n - 1].entries,
            inodes[n - 1].entries.len(),
            ino,
        )
    }
}

/// How many of the first `n` entries, `.` and `..` not counted, name directories.
pub open spec fn subdirs_in(inodes: Seq<InodeView>, entries: Seq<Entry>, n: nat) -> nat
    decreases n,
{
    if n <= 2 {
        0
    } else {
        subdirs_in(inodes, entries, (n - 1) as nat) + if entries[n - 1].ino != 0
            && inodes[entries[n - 1].ino].ty == T_DIR {
            1nat
        } else {
            0
        }
    }
}

/// How many links an inode should have: one for each entry that names it, one for
/// each directory in it, and one if it is the root directory.
pub open spec fn links(inodes: Seq<InodeView>, ino: int) -> nat {
    named(inodes, inodes.len(), ino) + subdirs_in(
        inodes,
        inodes[ino].entries,
        inodes[ino].entries.len(),
    ) + if ino == ROOT_INO {
        1nat
    } else {
        0
    }
}

/// The name of a directory in itself.
pub open spec fn dot() -> Seq<u8> {
    seq![DOT]
}

/// The name of the parent of a directory in that directory.
pub open spec fn dot_dot() -> Seq<u8> {
    seq![DOT, DOT]
}

/// Whether a directory begins with the entries `.` and `..`.
pub open spec fn has_dots(node: InodeView) -> bool {
    &&& node.entries.len() >= 2
    &&& node.entries[0].ino != 0 && node.entries[0].name == dot()
    &&& node.entries[1].ino != 0 && node.entries[1].name == dot_dot()
}

/// Whether an inode has been made completely: a directory has the entries `.` and `..`.
pub open spec fn is_whole(node: InodeView) -> bool {
    node.ty == T_DIR ==> has_dots(node)
}

/// Whether an inode is in order: a directory begins with the entries `.` and `..`,
/// unless there was no room for them, and then it has no others; no other entry has
/// these names, or names the directory itself; no two entries have the same name; what
/// is not a directory has no entries; and all entries name inodes that are in use, and
/// that have been made completely if the directory has.
pub open spec fn inode_wf(inodes: Seq<InodeView>, i: int) -> bool {
    let node = inodes[i];
    &&& node.ty == T_DIR ==> has_dots(node) || node.entries.len() < 2
    &&& node.ty != T_DIR ==> node.entries.len() == 0
    &&& forall|k: int|
        0 <= k < node.entries.len() && (#[trigger] node.entries[k]).ino != 0 ==> {
            &&& 0 < node.entries[k].ino < inodes.len()
            &&& inodes[node.entries[k].ino].ty != T_FREE
            &&& has_dots(node) ==> is_whole(inodes[node.entries[k].ino])
            &&& k >= 2 ==> node.entries[k].ino != i && node.entries[k].name != dot()
                && node.entries[k].name != dot_dot()
        }
    &&& names_differ(node.entries)
}

/// Whether no two entries in use have the same name.
pub open spec fn names_differ(entries: Seq<Entry>) -> bool {
    forall|j: int, k: int|
        0 <= j < entries.len() && 0 <= k < entries.len() && j != k && (#[trigger] entries[j]).ino
            != 0 && (#[trigger] entries[k]).ino != 0 ==> entries[j].name != entries[k].name
}

/// Whether all inodes are in order, the root directory is one of them, and the
/// number of links of each is what it should be.
pub open spec fn fs_wf(inodes: Seq<InodeView>) -> bool {
    &&& ROOT_INO < inodes.len()
    &&& inodes[0].ty == T_FREE
    &&& inodes[ROOT_INO as int].ty == T_DIR
    &&& has_dots(inodes[ROOT_INO as int])
    &&& forall|i: int| 0 <= i < inodes.len() ==> #[trigger] inode_wf(inodes, i)
    &&& forall|i: int|
        0 <= i < inodes.len() && (#[trigger] inodes[i]).ty != T_FREE ==> inodes[i].nlink == links(
            inodes,
            i,
        )
}

/// Files, directories and devices.
pub struct FileSystem {
    pub inodes: Vec<Inode>,
}

impl FileSystem {
    pub open spec fn view(&self) -> Seq<InodeView> {
        inodes_view(self.inodes@)
    }

    /// All inodes are in order.
    pub open spec fn wf(&self) -> bool {
        fs_wf(self@)
    }

    /// Whether a number is that of an inode in use that has been made completely.
    pub open spec fn live(&self, ino: int) -> bool {
        0 <= ino < self@.len() && self@[ino].ty != T_FREE && is_whole(self@[ino])
    }

    /// Finds the entry of a directory that has a name.
    pub fn lookup(&self, dir: usize, name: &Vec<u8>) -> (r: Option<usize>)
        requires
            dir < self@.len(),
        ensures
            match find_entry(self@[dir as int].entries, name@, 0) {
                Some(k) => r matches Some(i) && i == k && 0 <= k < self@[dir as int].entries.len(),
                None => r is None,
            },
    {
        let entries: &Vec<DirEntry> = &self.inodes[dir].entries;
        let mut k: usize = 0;
        assert(self@[dir as int].entries.len() == entries@.len());
        while k < entries.len()
            invariant
                dir < self@.len(),
                entries@ == self.inodes@[dir as int].entries@,
                k <= entries@.len(),
                find_entry(self@[dir as int].entries, name@, 0) == find_entry(
                    self@[dir as int].entries,
                    name@,
                    k as nat,
                ),
            decreases entries@.len() - k,
        {
            assert(self@[dir as int].entries[k as int] == entries@[k as int]@);
            if entries[k].ino != 0 && is_key(&entries[k].name, name) {
                return Some(k);
            }
            k = k + 1;
        }
        None
    }

    /// Follows the first `n` names of a path.
    pub fn resolve(&self, cwd: usize, path: &Path, n: usize) -> (r: Result<usize, KernelError>)
        requires
            self.wf(),
            self.live(cwd as int),
            n <= path.names@.len(),
        ensures
            match walk(self@, start_of(path.absolute, cwd as int), path@.take(n as int)) {
                Ok(ino) => r matches Ok(i) && i == ino && self.live(ino),
                Err(e) => r == Err::<usize, KernelError>(e),
            },
    {
        let mut ino: usize = if path.absolute {
            ROOT_INO
        } else {
            cwd
        };
        let ghost start = start_of(path.absolute, cwd as int);
        let mut k: usize = 0;
        while k < n
            invariant
                self.wf(),
                self.live(ino as int),
                k <= n <= path.names@.len(),
                walk(self@, start, path@.take(k as int)) == Ok::<int, KernelError>(ino as int),
                start == start_of(path.absolute, cwd as int),
            decreases n - k,
        {
            proof {
                assert(path@.take(k + 1).drop_last() =~= path@.take(k as int));
                assert(path@.take(k + 1).last() == path@[k as int]);
                assert(inode_wf(self@, ino as int));
                if walk(self@, start, path@.take(k + 1)) is Err {
                    lemma_walk_fails(self@, start, path@, (k + 1) as nat, n as nat);
                }
            }
            if self.inodes[ino].ty != T_DIR {
                return Err(KernelError::NonDirectoryPathComponent);
            }
            ino = match self.lookup(ino, &path.names[k]) {
                Some(i) => {
                    let ghost entries = self@[ino as int].entries;
                    proof {
                        lemma_find(entries, path@[k as int], 0);
                        assert(entries[i as int].ino != 0);
                    }
                    self.inodes[ino].entries[i].ino
                },
                None => {
                    return Err(KernelError::FsEntryNotFound);
                },
            };
            k = k + 1;
        }
        Ok(ino)
    }
}

/// What is found has the name and is in use; what comes before it has not.
pub proof fn lemma_find(entries: Seq<Entry>, name: Seq<u8>, k: nat)
    ensures
        match find_entry(entries, name, k) {
            Some(i) => k <= i < entries.len() && has_name(entries[i], name),
            None => forall|i: int| k <= i < entries.len() ==> !has_name(#[trigger] entries[i], name),
        },
    decreases entries.len() - k,
{
    if k < entries.len() && !has_name(entries[k as int], name) {
        lemma_find(entries, name, k + 1);
        if find_entry(entries, name, k + 1) is None {
            assert forall|i: int| k <= i < entries.len() implies !has_name(
                #[trigger] entries[i],
                name,
            ) by {
                if i > k {
                    assert(i >= k + 1);
                }
            }
        }
    }
}

/// A path that leads nowhere leads nowhere with more names, either.
pub proof fn lemma_walk_fails(
    inodes: Seq<InodeView>,
    start: int,
    names: Seq<Seq<u8>>,
    k: nat,
    n: nat,
)
    requires
        k <= n <= names.len(),
        walk(inodes, start, names.take(k as int)) is Err,
    ensures
        walk(inodes, start, names.take(n as int)) == walk(inodes, start, names.take(k as int)),
    decreases n,
{
    if k < n {
        assert(names.take(n as int).drop_last() =~= names.take(n - 1));
        lemma_walk_fails(inodes, start, names, k, (n - 1) as nat);
    }
}

/// An inode stands for what it holds, and so do the entries of a directory and all inodes of
/// a file system.
pub proof fn law_inode_view(fs: FileSystem, i: int, k: int)
    requires
        0 <= i < fs.inodes@.len(),
    ensures
        fs@.len() == fs.inodes@.len(),
        fs@[i].dev == fs.inodes@[i].dev,
        fs@[i].ty == fs.inodes@[i].ty,
        fs@[i].major == fs.inodes@[i].major,
        fs@[i].minor == fs.inodes@[i].minor,
        fs@[i].nlink == fs.inodes@[i].nlink,
        fs@[i].entries.len() == fs.inodes@[i].entries@.len(),
        0 <= k < fs.inodes@[i].entries@.len() ==> {
            &&& fs@[i].entries[k].ino == fs.inodes@[i].entries@[k].ino
            &&& fs@[i].entries[k].name == fs.inodes@[i].entries@[k].name@
        },
{
}

} // verus!
