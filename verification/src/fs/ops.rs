//! Making, naming and removing files.
use super::inode::{
    dot, dot_dot, entries_view, find_entry, free_entry, fs_wf, has_dots, has_name, inode_wf,
    is_empty_dir, is_whole, lemma_find, links, named, named_in, names_differ, start_of, subdirs_in,
    walk, with_entry, DirEntry, Entry, FileSystem, Inode, InodeView, DOT, T_DEVICE, T_DIR, T_FILE,
    T_FREE,
};
use super::path::{copy_key, key, Path};
use crate::error::KernelError;
use vstd::prelude::*;

verus! {

/// The first inode from the `k`-th on that is free and on the device.
pub open spec fn free_inode(inodes: Seq<InodeView>, dev: u32, k: nat) -> Option<int>
    decreases inodes.len() - k,
{
    if k >= inodes.len() {
        None
    } else if k > 0 && inodes[k as int].ty == T_FREE && inodes[k as int].dev == dev {
        Some(k as int)
    } else {
        free_inode(inodes, dev, k + 1)
    }
}

/// With `n` links more.
pub open spec fn relinked(node: InodeView, n: int) -> InodeView {
    InodeView { nlink: (node.nlink + n) as u16, ..node }
}

/// The inodes after inode `n` has been made, and named `name` in directory `d`.
pub open spec fn created(
    inodes: Seq<InodeView>,
    d: int,
    n: int,
    name: Seq<u8>,
    ty: u16,
    major: u32,
    minor: u16,
) -> Seq<InodeView> {
    inodes.update(
        n,
        InodeView {
            dev: inodes[n].dev,
            ty,
            major,
            minor,
            nlink: 1,
            entries: first_entries(n, d, ty),
        },
    ).update(
        d,
        InodeView {
            entries: with_entry(inodes[d].entries, Entry { ino: n, name: key(name) }),
            ..relinked(
                inodes[d],
                if ty == T_DIR {
                    1
                } else {
                    0
                },
            )
        },
    )
}

/// The inodes after inode `f` has been named `name` in directory `d`.
pub open spec fn linked(inodes: Seq<InodeView>, d: int, f: int, name: Seq<u8>) -> Seq<InodeView> {
    inodes.update(
        d,
        InodeView {
            entries: with_entry(inodes[d].entries, Entry { ino: f, name: key(name) }),
            ..inodes[d]
        },
    ).update(f, relinked(inodes[f], 1))
}

/// The inodes after the `k`-th entry of directory `d` has been removed.
pub open spec fn unlinked(inodes: Seq<InodeView>, d: int, k: int) -> Seq<InodeView> {
    let f = inodes[d].entries[k].ino;
    inodes.update(
        d,
        InodeView {
            entries: inodes[d].entries.update(k, Entry { ino: 0, name: seq![] }),
            ..relinked(
                inodes[d],
                if inodes[f].ty == T_DIR {
                    -1
                } else {
                    0
                },
            )
        },
    ).update(f, relinked(inodes[f], -1))
}

/// What comes of writing entries to directories: there may be no room for one, and then
/// nothing is written.
#[derive(Debug, Clone, Copy, PartialEq, Eq)]
pub struct DirWrites {
    /// The entry `.` of a new directory.
    pub dot: Result<(), KernelError>,
    /// The entry `..` of a new directory.
    pub dot_dot: Result<(), KernelError>,
    /// The entry for what is made.
    pub name: Result<(), KernelError>,
}

impl DirWrites {
    /// The first write that fails, if one of those that are made does: why, and how many
    /// entries a new directory has got before.
    pub open spec fn refused(self, ty: u16) -> Option<(KernelError, int)> {
        if ty == T_DIR && self.dot is Err {
            Some((self.dot->Err_0, 0))
        } else if ty == T_DIR && self.dot_dot is Err {
            Some((self.dot_dot->Err_0, 1))
        } else if self.name is Err {
            Some(
                (
                    self.name->Err_0,
                    if ty == T_DIR {
                        2
                    } else {
                        0
                    },
                ),
            )
        } else {
            None
        }
    }
}

/// The entries that a new inode begins with.
pub open spec fn first_entries(n: int, d: int, ty: u16) -> Seq<Entry> {
    if ty == T_DIR {
        seq![Entry { ino: n, name: dot() }, Entry { ino: d, name: dot_dot() }]
    } else {
        seq![]
    }
}

/// The inodes after inode `n` has been taken, and has got entries, but no name.
pub open spec fn taken(
    inodes: Seq<InodeView>,
    n: int,
    ty: u16,
    major: u32,
    minor: u16,
    entries: Seq<Entry>,
) -> Seq<InodeView> {
    inodes.update(n, InodeView { dev: inodes[n].dev, ty, major, minor, nlink: 0, entries })
}

/// What becomes of the wish to make something at the path that `names` gives.
pub open spec fn create_spec(
    inodes: Seq<InodeView>,
    start: int,
    names: Seq<Seq<u8>>,
    ty: u16,
    major: u32,
    minor: u16,
    writes: DirWrites,
) -> (Result<int, KernelError>, Seq<InodeView>) {
    if names.len() == 0 {
        (Err(KernelError::CreateRootDir), inodes)
    } else {
        match walk(inodes, start, names.drop_last()) {
            Err(e) => (Err(e), inodes),
            Ok(d) => if inodes[d].ty != T_DIR {
                (Err(KernelError::NonDirectoryPathComponent), inodes)
            } else {
                match find_entry(inodes[d].entries, names.last(), 0) {
                    Some(k) => {
                        let f = inodes[d].entries[k].ino;
                        if ty == T_FILE && (inodes[f].ty == T_FILE || inodes[f].ty == T_DEVICE) {
                            (Ok(f), inodes)
                        } else {
                            (Err(KernelError::CreateAlreadyExists), inodes)
                        }
                    },
                    None => match free_inode(inodes, inodes[d].dev, 0) {
                        Some(n) => match writes.refused(ty) {
                            Some((e, k)) => (
                                Err(e),
                                taken(inodes, n, ty, major, minor, first_entries(n, d, ty).take(k)),
                            ),
                            None => (
                                Ok(n),
                                created(inodes, d, n, names.last(), ty, major, minor),
                            ),
                        },
                        None => (Err(KernelError::NoFreeInode), inodes),
                    },
                }
            },
        }
    }
}

/// What becomes of the wish to remove the name that `names` gives.
pub open spec fn unlink_spec(inodes: Seq<InodeView>, start: int, names: Seq<Seq<u8>>) -> (
    Result<(), KernelError>,
    Seq<InodeView>,
) {
    if names.len() == 0 {
        (Err(KernelError::UnlinkRootDir), inodes)
    } else {
        match walk(inodes, start, names.drop_last()) {
            Err(e) => (Err(e), inodes),
            Ok(d) => if names.last() == dot() || names.last() == dot_dot() {
                (Err(KernelError::UnlinkDots), inodes)
            } else if inodes[d].ty != T_DIR {
                (Err(KernelError::NonDirectoryPathComponent), inodes)
            } else {
                match find_entry(inodes[d].entries, names.last(), 0) {
                    None => (Err(KernelError::FsEntryNotFound), inodes),
                    Some(k) => {
                        let f = inodes[d].entries[k].ino;
                        if inodes[f].ty == T_DIR && !is_empty_dir(inodes[f].entries) {
                            (Err(KernelError::DirectoryNotEmpty), inodes)
                        } else {
                            (Ok(()), unlinked(inodes, d, k))
                        }
                    },
                }
            },
        }
    }
}

/// What becomes of the wish to give what the one path leads to the name that the
/// other path gives.
pub open spec fn link_spec(
    inodes: Seq<InodeView>,
    old_start: int,
    old_names: Seq<Seq<u8>>,
    new_start: int,
    new_names: Seq<Seq<u8>>,
    write: Result<(), KernelError>,
) -> (Result<(), KernelError>, Seq<InodeView>) {
    if new_names.len() == 0 {
        (Err(KernelError::LinkRootDir), inodes)
    } else {
        match walk(inodes, old_start, old_names) {
            Err(e) => (Err(e), inodes),
            Ok(f) => if inodes[f].ty == T_DIR {
                (Err(KernelError::NonDirectoryPathComponent), inodes)
            } else {
                match walk(inodes, new_start, new_names.drop_last()) {
                    Err(e) => (Err(e), inodes),
                    Ok(d) => if inodes[d].dev != inodes[f].dev {
                        (Err(KernelError::LinkCrossDevices), inodes)
                    } else if inodes[d].ty != T_DIR {
                        (Err(KernelError::LinkToNonDirectory), inodes)
                    } else if find_entry(inodes[d].entries, new_names.last(), 0) is Some {
                        (Err(KernelError::LinkAlreadyExists), inodes)
                    } else if write is Err {
                        (write, inodes)
                    } else {
                        (Ok(()), linked(inodes, d, f, new_names.last()))
                    },
                }
            },
        }
    }
}

/// The first free entry is free, and there is none before it.
pub proof fn lemma_free_entry(entries: Seq<Entry>, k: nat)
    requires
        k <= entries.len(),
    ensures
        k <= free_entry(entries, k) <= entries.len(),
        free_entry(entries, k) < entries.len() ==> entries[free_entry(entries, k) as int].ino == 0,
        forall|i: int| k <= i < free_entry(entries, k) ==> (#[trigger] entries[i]).ino != 0,
    decreases entries.len() - k,
{
    if k < entries.len() && entries[k as int].ino != 0 {
        lemma_free_entry(entries, k + 1);
    }
}

/// The first free inode is free and on the device.
pub proof fn lemma_free_inode(inodes: Seq<InodeView>, dev: u32, k: nat)
    ensures
        free_inode(inodes, dev, k) matches Some(n) ==> {
            &&& 0 < n < inodes.len()
            &&& k <= n
            &&& inodes[n].ty == T_FREE
            &&& inodes[n].dev == dev
        },
    decreases inodes.len() - k,
{
    if k < inodes.len() && !(k > 0 && inodes[k as int].ty == T_FREE && inodes[k as int].dev == dev) {
        lemma_free_inode(inodes, dev, k + 1);
    }
}

/// One entry more or less changes the count by one.
proof fn lemma_named_in(a: Seq<Entry>, b: Seq<Entry>, n: nat, k: int, ino: int)
    requires
        2 <= k < a.len(),
        b.len() == a.len(),
        n <= a.len(),
        forall|j: int| 0 <= j < a.len() && j != k ==> #[trigger] b[j] == a[j],
    ensures
        named_in(b, n, ino) == named_in(a, n, ino) + if k < n {
            (if b[k].ino == ino {
                1int
            } else {
                0
            }) - (if a[k].ino == ino {
                1int
            } else {
                0
            })
        } else {
            0
        },
    decreases n,
{
    if n > 2 {
        lemma_named_in(a, b, (n - 1) as nat, k, ino);
    }
}

/// The count over entries depends on no others.
proof fn lemma_named_in_prefix(a: Seq<Entry>, b: Seq<Entry>, n: nat, ino: int)
    requires
        n <= a.len(),
        n <= b.len(),
        forall|j: int| 0 <= j < n ==> #[trigger] a[j] == b[j],
    ensures
        named_in(a, n, ino) == named_in(b, n, ino),
    decreases n,
{
    if n > 2 {
        lemma_named_in_prefix(a, b, (n - 1) as nat, ino);
    }
}

/// What a new entry adds to the count.
proof fn lemma_named_in_with(entries: Seq<Entry>, e: Entry, ino: int)
    requires
        entries.len() >= 2,
        entries[0].ino != 0,
        entries[1].ino != 0,
        ino != 0,
    ensures
        named_in(with_entry(entries, e), with_entry(entries, e).len(), ino) == named_in(
            entries,
            entries.len(),
            ino,
        ) + if e.ino == ino {
            1nat
        } else {
            0
        },
{
    lemma_free_entry(entries, 0);
    let k = free_entry(entries, 0);
    let b = with_entry(entries, e);
    if k < entries.len() {
        lemma_named_in(entries, b, entries.len(), k as int, ino);
    } else {
        lemma_named_in_prefix(entries, b, entries.len(), ino);
    }
}

/// One entry more or less changes the count of directories by one.
proof fn lemma_subdirs(inodes: Seq<InodeView>, a: Seq<Entry>, b: Seq<Entry>, n: nat, k: int)
    requires
        2 <= k < a.len(),
        b.len() == a.len(),
        n <= a.len(),
        forall|j: int| 0 <= j < a.len() && j != k ==> #[trigger] b[j] == a[j],
    ensures
        subdirs_in(inodes, b, n) == subdirs_in(inodes, a, n) + if k < n {
            (if b[k].ino != 0 && inodes[b[k].ino].ty == T_DIR {
                1int
            } else {
                0
            }) - (if a[k].ino != 0 && inodes[a[k].ino].ty == T_DIR {
                1int
            } else {
                0
            })
        } else {
            0
        },
    decreases n,
{
    if n > 2 {
        lemma_subdirs(inodes, a, b, (n - 1) as nat, k);
    }
}

/// The count of directories depends on no more than the entries and the types of
/// what they name.
proof fn lemma_subdirs_same(
    x: Seq<InodeView>,
    y: Seq<InodeView>,
    a: Seq<Entry>,
    b: Seq<Entry>,
    n: nat,
)
    requires
        n <= a.len(),
        n <= b.len(),
        forall|j: int| 0 <= j < n ==> #[trigger] a[j] == b[j],
        forall|j: int|
            0 <= j < n && (#[trigger] a[j]).ino != 0 ==> x[a[j].ino].ty == y[a[j].ino].ty,
    ensures
        subdirs_in(x, a, n) == subdirs_in(y, b, n),
    decreases n,
{
    if n > 2 {
        lemma_subdirs_same(x, y, a, b, (n - 1) as nat);
    }
}

/// What a new entry adds to the count of directories.
proof fn lemma_subdirs_with(inodes: Seq<InodeView>, entries: Seq<Entry>, e: Entry)
    requires
        entries.len() >= 2,
        entries[0].ino != 0,
        entries[1].ino != 0,
    ensures
        subdirs_in(inodes, with_entry(entries, e), with_entry(entries, e).len()) == subdirs_in(
            inodes,
            entries,
            entries.len(),
        ) + if e.ino != 0 && inodes[e.ino].ty == T_DIR {
            1nat
        } else {
            0
        },
{
    lemma_free_entry(entries, 0);
    let k = free_entry(entries, 0);
    let b = with_entry(entries, e);
    if k < entries.len() {
        lemma_subdirs(inodes, entries, b, entries.len(), k as int);
    } else {
        lemma_subdirs_same(inodes, inodes, entries, b, entries.len());
    }
}

/// The count over all inodes changes with those whose entries change.
proof fn lemma_named(x: Seq<InodeView>, y: Seq<InodeView>, n: nat, d: int, ino: int)
    requires
        x.len() == y.len(),
        n <= x.len(),
        0 <= d < x.len(),
        forall|j: int|
            0 <= j < x.len() && j != d ==> named_in(
                (#[trigger] y[j]).entries,
                y[j].entries.len(),
                ino,
            ) == named_in(x[j].entries, x[j].entries.len(), ino),
    ensures
        named(y, n, ino) == named(x, n, ino) + if d < n {
            named_in(y[d].entries, y[d].entries.len(), ino) - named_in(
                x[d].entries,
                x[d].entries.len(),
                ino,
            )
        } else {
            0
        },
    decreases n,
{
    if n > 0 {
        lemma_named(x, y, (n - 1) as nat, d, ino);
        assert(d != n - 1 ==> named_in(y[n - 1].entries, y[n - 1].entries.len(), ino) == named_in(
            x[n - 1].entries,
            x[n - 1].entries.len(),
            ino,
        ));
    }
}

/// An inode that is not in use is not named.
proof fn lemma_unnamed_in(inodes: Seq<InodeView>, d: int, n: nat, ino: int)
    requires
        fs_wf(inodes),
        0 <= d < inodes.len(),
        n <= inodes[d].entries.len(),
        0 < ino < inodes.len(),
        inodes[ino].ty == T_FREE,
    ensures
        named_in(inodes[d].entries, n, ino) == 0,
    decreases n,
{
    if n > 2 {
        lemma_unnamed_in(inodes, d, (n - 1) as nat, ino);
        assert(inode_wf(inodes, d));
        assert(inodes[d].entries[n - 1].ino != ino);
    }
}

proof fn lemma_unnamed(inodes: Seq<InodeView>, n: nat, ino: int)
    requires
        fs_wf(inodes),
        n <= inodes.len(),
        0 < ino < inodes.len(),
        inodes[ino].ty == T_FREE,
    ensures
        named(inodes, n, ino) == 0,
    decreases n,
{
    if n > 0 {
        lemma_unnamed(inodes, (n - 1) as nat, ino);
        lemma_unnamed_in(inodes, n - 1, inodes[n - 1].entries.len(), ino);
    }
}

/// An entry that names an inode is counted.
proof fn lemma_counted_in(entries: Seq<Entry>, n: nat, k: int)
    requires
        2 <= k < n <= entries.len(),
    ensures
        named_in(entries, n, entries[k].ino) >= 1,
    decreases n,
{
    if k < n - 1 {
        lemma_counted_in(entries, (n - 1) as nat, k);
    }
}

proof fn lemma_counted(inodes: Seq<InodeView>, n: nat, d: int, k: int)
    requires
        0 <= d < n <= inodes.len(),
        2 <= k < inodes[d].entries.len(),
    ensures
        named(inodes, n, inodes[d].entries[k].ino) >= 1,
    decreases n,
{
    if d < n - 1 {
        lemma_counted(inodes, (n - 1) as nat, d, k);
    } else {
        lemma_counted_in(inodes[d].entries, inodes[d].entries.len(), k);
    }
}

proof fn lemma_subdir_counted(inodes: Seq<InodeView>, entries: Seq<Entry>, n: nat, k: int)
    requires
        2 <= k < n <= entries.len(),
        entries[k].ino != 0,
        inodes[entries[k].ino].ty == T_DIR,
    ensures
        subdirs_in(inodes, entries, n) >= 1,
    decreases n,
{
    if k < n - 1 {
        lemma_subdir_counted(inodes, entries, (n - 1) as nat, k);
    }
}

/// A name that no entry of a directory has is neither `.` nor `..`.
pub proof fn lemma_new_name(inodes: Seq<InodeView>, d: int, name: Seq<u8>)
    requires
        fs_wf(inodes),
        0 <= d < inodes.len(),
        has_dots(inodes[d]),
        find_entry(inodes[d].entries, name, 0) is None,
    ensures
        key(name) != dot(),
        key(name) != dot_dot(),
{
    lemma_find(inodes[d].entries, name, 0);
    assert(inode_wf(inodes, d));
    assert(!has_name(inodes[d].entries[0], name));
    assert(!has_name(inodes[d].entries[1], name));
}

/// With a new entry in a directory, each entry is an old one or the new one.
pub proof fn lemma_with_entry(entries: Seq<Entry>, e: Entry)
    requires
        entries.len() >= 2,
        entries[0].ino != 0,
        entries[1].ino != 0,
    ensures
        ({
            let b = with_entry(entries, e);
            &&& b.len() >= entries.len()
            &&& b[0] == entries[0]
            &&& b[1] == entries[1]
            &&& forall|k: int|
                0 <= k < b.len() ==> (k < entries.len() && #[trigger] b[k] == entries[k]) || (k >= 2
                    && b[k] == e)
        }),
{
    lemma_free_entry(entries, 0);
}

/// With a new entry whose name no other has, names still differ.
proof fn lemma_names_differ(entries: Seq<Entry>, ino: int, name: Seq<u8>)
    requires
        entries.len() >= 2,
        entries[0].ino != 0,
        entries[1].ino != 0,
        names_differ(entries),
        find_entry(entries, name, 0) is None,
    ensures
        names_differ(with_entry(entries, Entry { ino, name: key(name) })),
{
    let e = Entry { ino, name: key(name) };
    let b = with_entry(entries, e);
    lemma_find(entries, name, 0);
    lemma_free_entry(entries, 0);
    let at = free_entry(entries, 0) as int;
    assert forall|j: int, k: int|
        0 <= j < b.len() && 0 <= k < b.len() && j != k && (#[trigger] b[j]).ino != 0 && (
        #[trigger] b[k]).ino != 0 implies b[j].name != b[k].name by {
        if j != at {
            assert(b[j] == entries[j]);
            assert(!has_name(entries[j], name));
        }
        if k != at {
            assert(b[k] == entries[k]);
            assert(!has_name(entries[k], name));
        }
    }
}

/// Making something keeps everything in order, the numbers of links included.
pub proof fn law_create_keeps_links(
    inodes: Seq<InodeView>,
    d: int,
    n: int,
    name: Seq<u8>,
    ty: u16,
    major: u32,
    minor: u16,
)
    requires
        fs_wf(inodes),
        0 <= d < inodes.len(),
        inodes[d].ty == T_DIR,
        has_dots(inodes[d]),
        ty == T_DIR ==> inodes[d].nlink < u16::MAX,
        0 < n < inodes.len(),
        inodes[n].ty == T_FREE,
        ty != T_FREE,
        find_entry(inodes[d].entries, name, 0) is None,
    ensures
        fs_wf(created(inodes, d, n, name, ty, major, minor)),
{
    let after = created(inodes, d, n, name, ty, major, minor);
    let e = Entry { ino: n, name: key(name) };
    let old_entries = inodes[d].entries;
    assert(inode_wf(inodes, d));
    assert(inode_wf(inodes, n));
    assert(d != n);
    lemma_new_name(inodes, d, name);
    lemma_with_entry(old_entries, e);
    lemma_names_differ(old_entries, e.ino, name);
    assert(after[d].entries == with_entry(old_entries, e));
    assert forall|i: int| 0 <= i < after.len() implies #[trigger] inode_wf(after, i) by {
        assert(inode_wf(inodes, i));
        let node = after[i];
        assert forall|k: int|
            0 <= k < node.entries.len() && (#[trigger] node.entries[k]).ino != 0 implies {
            &&& 0 < node.entries[k].ino < after.len()
            &&& after[node.entries[k].ino].ty != T_FREE
            &&& has_dots(node) ==> is_whole(after[node.entries[k].ino])
            &&& k >= 2 ==> node.entries[k].ino != i && node.entries[k].name != dot()
                && node.entries[k].name != dot_dot()
        } by {
            if i == d {
                if k < old_entries.len() && node.entries[k] == old_entries[k] {
                    assert(old_entries[k].ino != 0);
                }
            } else if i != n {
                assert(node.entries[k] == inodes[i].entries[k]);
            }
        }
    }
    assert forall|i: int| 0 <= i < after.len() && (#[trigger] after[i]).ty != T_FREE implies after[i].nlink
        == links(after, i) by {
        assert(i != 0) by {
            assert(inodes[0].ty == T_FREE);
        }
        lemma_named_in_with(old_entries, e, i);
        assert forall|j: int| 0 <= j < inodes.len() && j != d implies named_in(
            (#[trigger] after[j]).entries,
            after[j].entries.len(),
            i,
        ) == named_in(inodes[j].entries, inodes[j].entries.len(), i) by {}
        lemma_named(inodes, after, inodes.len(), d, i);
        if i == n {
            lemma_unnamed(inodes, inodes.len(), n);
        } else {
            assert(inodes[i].nlink == links(inodes, i));
            let entries = inodes[i].entries;
            assert forall|j: int| 0 <= j < entries.len() && (#[trigger] entries[j]).ino != 0 implies inodes[entries[j].ino].ty
                == after[entries[j].ino].ty by {
                assert(inode_wf(inodes, i));
                assert(entries[j].ino != n);
            }
            lemma_subdirs_same(inodes, after, entries, entries, entries.len());
            if i == d {
                lemma_subdirs_with(after, old_entries, e);
            }
        }
    }
}

/// Taking an inode that gets no name keeps everything in order, the numbers of links
/// included.
pub proof fn law_take_keeps_links(
    inodes: Seq<InodeView>,
    d: int,
    n: int,
    ty: u16,
    major: u32,
    minor: u16,
    k: int,
)
    requires
        fs_wf(inodes),
        0 <= d < inodes.len(),
        inodes[d].ty == T_DIR,
        has_dots(inodes[d]),
        0 < n < inodes.len(),
        inodes[n].ty == T_FREE,
        ty != T_FREE,
        0 <= k <= first_entries(n, d, ty).len(),
    ensures
        fs_wf(taken(inodes, n, ty, major, minor, first_entries(n, d, ty).take(k))),
{
    let entries = first_entries(n, d, ty).take(k);
    let after = taken(inodes, n, ty, major, minor, entries);
    assert(inode_wf(inodes, d));
    assert(inode_wf(inodes, n));
    assert(d != n);
    assert(d != 0) by {
        assert(inodes[0].ty == T_FREE);
    }
    assert forall|i: int| 0 <= i < after.len() implies #[trigger] inode_wf(after, i) by {
        assert(inode_wf(inodes, i));
        let node = after[i];
        assert forall|j: int|
            0 <= j < node.entries.len() && (#[trigger] node.entries[j]).ino != 0 implies {
            &&& 0 < node.entries[j].ino < after.len()
            &&& after[node.entries[j].ino].ty != T_FREE
            &&& has_dots(node) ==> is_whole(after[node.entries[j].ino])
            &&& j >= 2 ==> node.entries[j].ino != i && node.entries[j].name != dot()
                && node.entries[j].name != dot_dot()
        } by {
            if i != n {
                assert(node.entries[j] == inodes[i].entries[j]);
            }
        }
        if i == n {
            assert(dot().len() != dot_dot().len());
        }
    }
    assert forall|i: int| 0 <= i < after.len() && (#[trigger] after[i]).ty != T_FREE implies after[i].nlink
        == links(after, i) by {
        assert(i != 0) by {
            assert(inodes[0].ty == T_FREE);
        }
        assert forall|j: int| 0 <= j < inodes.len() && j != n implies named_in(
            (#[trigger] after[j]).entries,
            after[j].entries.len(),
            i,
        ) == named_in(inodes[j].entries, inodes[j].entries.len(), i) by {}
        lemma_named(inodes, after, inodes.len(), n, i);
        if i == n {
            lemma_unnamed(inodes, inodes.len(), n);
        } else {
            assert(inodes[i].nlink == links(inodes, i));
            let old_entries = inodes[i].entries;
            assert forall|j: int|
                0 <= j < old_entries.len() && (#[trigger] old_entries[j]).ino
                    != 0 implies inodes[old_entries[j].ino].ty == after[old_entries[j].ino].ty by {
                assert(inode_wf(inodes, i));
                assert(old_entries[j].ino != n);
            }
            lemma_subdirs_same(inodes, after, old_entries, old_entries, old_entries.len());
        }
    }
}

/// Giving a file another name keeps everything in order, the numbers of links
/// included.
pub proof fn law_link_keeps_links(inodes: Seq<InodeView>, d: int, f: int, name: Seq<u8>)
    requires
        fs_wf(inodes),
        0 <= d < inodes.len(),
        inodes[d].ty == T_DIR,
        has_dots(inodes[d]),
        0 <= f < inodes.len(),
        inodes[f].ty != T_FREE,
        inodes[f].ty != T_DIR,
        inodes[f].nlink < u16::MAX,
        find_entry(inodes[d].entries, name, 0) is None,
    ensures
        fs_wf(linked(inodes, d, f, name)),
{
    let after = linked(inodes, d, f, name);
    let e = Entry { ino: f, name: key(name) };
    let old_entries = inodes[d].entries;
    assert(inode_wf(inodes, d));
    assert(inode_wf(inodes, f));
    assert(f != 0) by {
        assert(inodes[0].ty == T_FREE);
    }
    lemma_new_name(inodes, d, name);
    lemma_with_entry(old_entries, e);
    lemma_names_differ(old_entries, e.ino, name);
    assert(after[d].entries == with_entry(old_entries, e));
    assert forall|i: int| 0 <= i < after.len() implies #[trigger] inode_wf(after, i) by {
        assert(inode_wf(inodes, i));
        let node = after[i];
        assert forall|k: int|
            0 <= k < node.entries.len() && (#[trigger] node.entries[k]).ino != 0 implies {
            &&& 0 < node.entries[k].ino < after.len()
            &&& after[node.entries[k].ino].ty != T_FREE
            &&& has_dots(node) ==> is_whole(after[node.entries[k].ino])
            &&& k >= 2 ==> node.entries[k].ino != i && node.entries[k].name != dot()
                && node.entries[k].name != dot_dot()
        } by {
            if i == d {
                if k < old_entries.len() && node.entries[k] == old_entries[k] {
                    assert(old_entries[k].ino != 0);
                }
            } else {
                assert(node.entries[k] == inodes[i].entries[k]);
            }
        }
    }
    assert forall|i: int| 0 <= i < after.len() && (#[trigger] after[i]).ty != T_FREE implies after[i].nlink
        == links(after, i) by {
        assert(i != 0) by {
            assert(inodes[0].ty == T_FREE);
        }
        lemma_named_in_with(old_entries, e, i);
        assert forall|j: int| 0 <= j < inodes.len() && j != d implies named_in(
            (#[trigger] after[j]).entries,
            after[j].entries.len(),
            i,
        ) == named_in(inodes[j].entries, inodes[j].entries.len(), i) by {}
        lemma_named(inodes, after, inodes.len(), d, i);
        assert(inodes[i].ty != T_FREE);
        assert(inodes[i].nlink == links(inodes, i));
        let entries = inodes[i].entries;
        assert forall|j: int| 0 <= j < entries.len() && (#[trigger] entries[j]).ino != 0 implies inodes[entries[j].ino].ty
            == after[entries[j].ino].ty by {
            assert(inode_wf(inodes, i));
        }
        lemma_subdirs_same(inodes, after, entries, entries, entries.len());
        if i == d {
            lemma_subdirs_with(after, old_entries, e);
        }
    }
}

/// Whether an entry of a directory is in use and is not one of `.` and `..`.
pub open spec fn is_regular(inodes: Seq<InodeView>, d: int, k: int) -> bool {
    &&& 0 <= d < inodes.len()
    &&& inodes[d].ty == T_DIR
    &&& 2 <= k < inodes[d].entries.len()
    &&& inodes[d].entries[k].ino != 0
}

/// What is removed has a link to lose, and so has its directory if it is one.
pub proof fn lemma_regular(inodes: Seq<InodeView>, d: int, k: int)
    requires
        fs_wf(inodes),
        is_regular(inodes, d, k),
    ensures
        ({
            let f = inodes[d].entries[k].ino;
            &&& 0 < f < inodes.len()
            &&& f != d
            &&& inodes[f].ty != T_FREE
            &&& inodes[f].nlink > 0
            &&& inodes[f].ty == T_DIR ==> inodes[d].nlink > 0
        }),
{
    assert(inode_wf(inodes, d));
    let f = inodes[d].entries[k].ino;
    lemma_counted(inodes, inodes.len(), d, k);
    assert(inodes[f].nlink == links(inodes, f));
    if inodes[f].ty == T_DIR {
        lemma_subdir_counted(inodes, inodes[d].entries, inodes[d].entries.len(), k);
        assert(inodes[d].nlink == links(inodes, d));
    }
}

/// Removing a name keeps everything in order, the numbers of links included.
pub proof fn law_unlink_keeps_links(inodes: Seq<InodeView>, d: int, k: int)
    requires
        fs_wf(inodes),
        is_regular(inodes, d, k),
    ensures
        fs_wf(unlinked(inodes, d, k)),
{
    let after = unlinked(inodes, d, k);
    let f = inodes[d].entries[k].ino;
    let old_entries = inodes[d].entries;
    let new_entries = old_entries.update(k, Entry { ino: 0, name: seq![] });
    lemma_regular(inodes, d, k);
    assert(inode_wf(inodes, d));
    assert(after[d].entries == new_entries);
    assert forall|i: int| 0 <= i < after.len() implies #[trigger] inode_wf(after, i) by {
        assert(inode_wf(inodes, i));
        let node = after[i];
        assert forall|j: int|
            0 <= j < node.entries.len() && (#[trigger] node.entries[j]).ino != 0 implies {
            &&& 0 < node.entries[j].ino < after.len()
            &&& after[node.entries[j].ino].ty != T_FREE
            &&& has_dots(node) ==> is_whole(after[node.entries[j].ino])
            &&& j >= 2 ==> node.entries[j].ino != i && node.entries[j].name != dot()
                && node.entries[j].name != dot_dot()
        } by {
            assert(node.entries[j] == inodes[i].entries[j]);
        }
    }
    assert forall|i: int| 0 <= i < after.len() && (#[trigger] after[i]).ty != T_FREE implies after[i].nlink
        == links(after, i) by {
        assert(i != 0) by {
            assert(inodes[0].ty == T_FREE);
        }
        lemma_named_in(old_entries, new_entries, old_entries.len(), k, i);
        assert forall|j: int| 0 <= j < inodes.len() && j != d implies named_in(
            (#[trigger] after[j]).entries,
            after[j].entries.len(),
            i,
        ) == named_in(inodes[j].entries, inodes[j].entries.len(), i) by {}
        lemma_named(inodes, after, inodes.len(), d, i);
        assert(inodes[i].ty != T_FREE);
        assert(inodes[i].nlink == links(inodes, i));
        let entries = inodes[i].entries;
        assert forall|j: int| 0 <= j < entries.len() && (#[trigger] entries[j]).ino != 0 implies inodes[entries[j].ino].ty
            == after[entries[j].ino].ty by {
            assert(inode_wf(inodes, i));
        }
        lemma_subdirs_same(inodes, after, entries, entries, entries.len());
        if i == d {
            lemma_subdirs(after, old_entries, new_entries, old_entries.len(), k);
        }
    }
}

/// Adds an entry to a directory, in the first free place.
fn add_entry(fs: &mut FileSystem, dir: usize, ino: usize, name: Vec<u8>)
    requires
        dir < old(fs)@.len(),
    ensures
        final(fs)@ == old(fs)@.update(
            dir as int,
            InodeView {
                entries: with_entry(
                    old(fs)@[dir as int].entries,
                    Entry { ino: ino as int, name: name@ },
                ),
                ..old(fs)@[dir as int]
            },
        ),
{
    let ghost entries = fs@[dir as int].entries;
    let ghost e = Entry { ino: ino as int, name: name@ };
    let ghost before = fs@;
    let mut k: usize = 0;
    while k < fs.inodes[dir].entries.len() && fs.inodes[dir].entries[k].ino != 0
        invariant
            dir < fs@.len(),
            fs@ == before,
            entries == before[dir as int].entries,
            k <= entries.len(),
            free_entry(entries, 0) == free_entry(entries, k as nat),
        decreases entries.len() - k,
    {
        assert(entries[k as int] == fs.inodes@[dir as int].entries@[k as int]@);
        k = k + 1;
    }
    proof {
        if k < entries.len() {
            assert(entries[k as int] == fs.inodes@[dir as int].entries@[k as int]@);
        }
    }
    if k < fs.inodes[dir].entries.len() {
        fs.inodes[dir].entries.set(k, DirEntry { ino, name });
    } else {
        fs.inodes[dir].entries.push(DirEntry { ino, name });
    }
    proof {
        assert(fs@[dir as int].entries =~= with_entry(entries, e));
        assert(fs@ =~= before.update(
            dir as int,
            InodeView { entries: with_entry(entries, e), ..before[dir as int] },
        ));
    }
}

/// The number of links of an inode.
fn get_nlink(fs: &FileSystem, ino: usize) -> (r: u16)
    requires
        ino < fs@.len(),
    ensures
        r == fs@[ino as int].nlink,
{
    fs.inodes[ino].nlink
}

/// Changes the number of links of an inode.
fn set_nlink(fs: &mut FileSystem, ino: usize, nlink: u16)
    requires
        ino < old(fs)@.len(),
    ensures
        final(fs)@ == old(fs)@.update(
            ino as int,
            InodeView { nlink, ..old(fs)@[ino as int] },
        ),
{
    let ghost before = fs@;
    fs.inodes[ino].nlink = nlink;
    assert(fs@[ino as int].entries =~= before[ino as int].entries);
    assert(fs@ =~= before.update(ino as int, InodeView { nlink, ..before[ino as int] }));
}

/// Whether a name is `.` or `..`.
fn is_dots(name: &Vec<u8>) -> (r: bool)
    ensures
        r == (name@ == dot() || name@ == dot_dot()),
{
    if name.len() == 1 {
        assert(name@ =~= seq![name@[0]]);
        name[0] == DOT
    } else if name.len() == 2 {
        assert(name@ =~= seq![name@[0], name@[1]]);
        assert(dot_dot()[0] == DOT && dot_dot()[1] == DOT);
        name[0] == DOT && name[1] == DOT
    } else {
        false
    }
}

/// Finds a free inode on a device.
fn find_free(fs: &FileSystem, dev: u32) -> (r: Option<usize>)
    ensures
        match free_inode(fs@, dev, 0) {
            Some(n) => r matches Some(i) && i == n,
            None => r is None,
        },
{
    let mut k: usize = 0;
    while k < fs.inodes.len()
        invariant
            k <= fs@.len(),
            free_inode(fs@, dev, 0) == free_inode(fs@, dev, k as nat),
        decreases fs@.len() - k,
    {
        if k > 0 && fs.inodes[k].ty == T_FREE && fs.inodes[k].dev == dev {
            return Some(k);
        }
        k = k + 1;
    }
    None
}

/// Whether a directory has no entries other than `.` and `..`.
fn is_empty(fs: &FileSystem, dir: usize) -> (r: bool)
    requires
        dir < fs@.len(),
    ensures
        r == is_empty_dir(fs@[dir as int].entries),
{
    let entries: &Vec<DirEntry> = &fs.inodes[dir].entries;
    let ghost view = fs@[dir as int].entries;
    let mut k: usize = 2;
    while k < entries.len()
        invariant
            2 <= k,
            view == fs@[dir as int].entries,
            view == entries_view(entries@),
            forall|j: int| 2 <= j < k && j < view.len() ==> (#[trigger] view[j]).ino == 0,
        decreases entries@.len() - k,
    {
        assert(view[k as int] == entries@[k as int]@);
        if entries[k].ino != 0 {
            return false;
        }
        k = k + 1;
    }
    true
}

/// Takes an inode, which gets no name.
fn take_inode(
    fs: &mut FileSystem,
    dir: usize,
    ino: usize,
    ty: u16,
    major: u32,
    minor: u16,
    entries: Vec<DirEntry>,
)
    requires
        old(fs).wf(),
        dir < old(fs)@.len(),
        old(fs)@[dir as int].ty == T_DIR,
        has_dots(old(fs)@[dir as int]),
        0 < ino < old(fs)@.len(),
        old(fs)@[ino as int].ty == T_FREE,
        ty != T_FREE,
        entries@.len() <= first_entries(ino as int, dir as int, ty).len(),
        entries_view(entries@) == first_entries(ino as int, dir as int, ty).take(
            entries@.len() as int,
        ),
    ensures
        final(fs).wf(),
        final(fs)@ == taken(
            old(fs)@,
            ino as int,
            ty,
            major,
            minor,
            first_entries(ino as int, dir as int, ty).take(entries@.len() as int),
        ),
{
    let ghost inodes = fs@;
    let ghost made = entries@;
    proof {
        law_take_keeps_links(
            inodes,
            dir as int,
            ino as int,
            ty,
            major,
            minor,
            entries@.len() as int,
        );
    }
    let dev: u32 = fs.inodes[ino].dev;
    fs.inodes.set(ino, Inode { dev, ty, major, minor, nlink: 0, entries });
    assert(fs@ =~= taken(inodes, ino as int, ty, major, minor, entries_view(made)));
}

/// Makes a file, a directory or a device, unless it is there already.
///
/// Where a directory has no room for an entry, the inode that has been taken is left
/// without a name.
pub fn create(
    fs: &mut FileSystem,
    cwd: usize,
    path: &Path,
    ty: u16,
    major: u32,
    minor: u16,
    writes: &DirWrites,
) -> (r: Result<usize, KernelError>)
    requires
        old(fs).wf(),
        old(fs).live(cwd as int),
        ty != T_FREE,
        ty == T_DIR && create_spec(
            old(fs)@,
            start_of(path.absolute, cwd as int),
            path@,
            ty,
            major,
            minor,
            *writes,
        ).0 is Ok ==> (walk(
            old(fs)@,
            start_of(path.absolute, cwd as int),
            path@.drop_last(),
        ) matches Ok(d) ==> old(fs)@[d].nlink < u16::MAX),
    ensures
        final(fs).wf(),
        final(fs)@ == create_spec(
            old(fs)@,
            start_of(path.absolute, cwd as int),
            path@,
            ty,
            major,
            minor,
            *writes,
        ).1,
        match create_spec(
            old(fs)@,
            start_of(path.absolute, cwd as int),
            path@,
            ty,
            major,
            minor,
            *writes,
        ).0 {
            Ok(ino) => r matches Ok(i) && i == ino && final(fs).live(ino),
            Err(e) => r == Err::<usize, KernelError>(e),
        },
{
    let ghost inodes = fs@;
    let n: usize = path.names.len();
    if n == 0 {
        return Err(KernelError::CreateRootDir);
    }
    let ghost names = path@;
    proof {
        assert(names.take(n - 1) =~= names.drop_last());
        assert(names.last() == path.names@[n - 1]@);
    }
    let dir: usize = match fs.resolve(cwd, path, n - 1) {
        Ok(dir) => dir,
        Err(e) => {
            return Err(e);
        },
    };
    if fs.inodes[dir].ty != T_DIR {
        return Err(KernelError::NonDirectoryPathComponent);
    }
    proof {
        lemma_find(inodes[dir as int].entries, names.last(), 0);
        assert(inode_wf(inodes, dir as int));
    }
    match fs.lookup(dir, &path.names[n - 1]) {
        Some(k) => {
            assert(inodes[dir as int].entries[k as int] == fs.inodes@[dir as int].entries@[k as int]@);
            let ino: usize = fs.inodes[dir].entries[k].ino;
            let found: u16 = fs.inodes[ino].ty;
            if ty == T_FILE && (found == T_FILE || found == T_DEVICE) {
                return Ok(ino);
            }
            return Err(KernelError::CreateAlreadyExists);
        },
        None => {},
    }
    let dev: u32 = fs.inodes[dir].dev;
    let ino: usize = match find_free(fs, dev) {
        Some(ino) => ino,
        None => {
            return Err(KernelError::NoFreeInode);
        },
    };
    proof {
        lemma_free_inode(inodes, dev, 0);
    }
    let ghost d = dir as int;
    let ghost dots = first_entries(ino as int, d, ty);
    let mut entries: Vec<DirEntry> = Vec::new();
    assert(entries_view(entries@) =~= dots.take(0));
    if ty == T_DIR {
        if let Err(e) = writes.dot {
            take_inode(fs, dir, ino, ty, major, minor, entries);
            return Err(e);
        }
        let mut here: Vec<u8> = Vec::new();
        here.push(DOT);
        assert(here@ =~= dot());
        entries.push(DirEntry { ino, name: here });
        assert(entries_view(entries@) =~= dots.take(1));
        if let Err(e) = writes.dot_dot {
            take_inode(fs, dir, ino, ty, major, minor, entries);
            return Err(e);
        }
        let mut up: Vec<u8> = Vec::new();
        up.push(DOT);
        up.push(DOT);
        assert(up@ =~= dot_dot());
        entries.push(DirEntry { ino: dir, name: up });
        assert(entries_view(entries@) =~= dots.take(2));
    }
    if let Err(e) = writes.name {
        take_inode(fs, dir, ino, ty, major, minor, entries);
        return Err(e);
    }
    proof {
        law_create_keeps_links(inodes, d, ino as int, names.last(), ty, major, minor);
    }
    let ghost made = entries@;
    fs.inodes.set(ino, Inode { dev, ty, major, minor, nlink: 1, entries });
    let ghost first = InodeView {
        dev: inodes[ino as int].dev,
        ty,
        major,
        minor,
        nlink: 1,
        entries: dots,
    };
    proof {
        assert(entries_view(made) =~= first.entries);
        assert(fs@ =~= inodes.update(ino as int, first));
        assert(fs@[dir as int] == inodes[dir as int]);
    }
    let name: Vec<u8> = copy_key(&path.names[n - 1]);
    add_entry(fs, dir, ino, name);
    if ty == T_DIR {
        // for `..`
        let nlink: u16 = get_nlink(fs, dir) + 1;
        set_nlink(fs, dir, nlink);
    }
    proof {
        let after = created(inodes, dir as int, ino as int, names.last(), ty, major, minor);
        assert(fs@[dir as int] =~= after[dir as int]);
        assert(fs@ =~= after);
    }
    Ok(ino)
}

/// Removes a name.
pub fn unlink(fs: &mut FileSystem, cwd: usize, path: &Path) -> (r: Result<(), KernelError>)
    requires
        old(fs).wf(),
        old(fs).live(cwd as int),
    ensures
        final(fs).wf(),
        (r, final(fs)@) == unlink_spec(old(fs)@, start_of(path.absolute, cwd as int), path@),
{
    let ghost inodes = fs@;
    let n: usize = path.names.len();
    if n == 0 {
        return Err(KernelError::UnlinkRootDir);
    }
    let ghost names = path@;
    proof {
        assert(names.take(n - 1) =~= names.drop_last());
        assert(names.last() == path.names@[n - 1]@);
    }
    let dir: usize = match fs.resolve(cwd, path, n - 1) {
        Ok(dir) => dir,
        Err(e) => {
            return Err(e);
        },
    };
    // cannot unlink "." or ".."
    if is_dots(&path.names[n - 1]) {
        return Err(KernelError::UnlinkDots);
    }
    if fs.inodes[dir].ty != T_DIR {
        return Err(KernelError::NonDirectoryPathComponent);
    }
    let k: usize = match fs.lookup(dir, &path.names[n - 1]) {
        Some(k) => k,
        None => {
            return Err(KernelError::FsEntryNotFound);
        },
    };
    let ghost d = dir as int;
    proof {
        lemma_find(inodes[d].entries, names.last(), 0);
        assert(inode_wf(inodes, d));
        assert(inodes[d].entries[k as int] == fs.inodes@[d].entries@[k as int]@);
        assert(k >= 2) by {
            let name = names.last();
            lemma_short_key(name, dot());
            lemma_short_key(name, dot_dot());
        }
        lemma_regular(inodes, d, k as int);
    }
    let ino: usize = fs.inodes[dir].entries[k].ino;
    let is_dir: bool = fs.inodes[ino].ty == T_DIR;
    if is_dir && !is_empty(fs, ino) {
        return Err(KernelError::DirectoryNotEmpty);
    }
    proof {
        law_unlink_keeps_links(inodes, d, k as int);
    }
    fs.inodes[dir].entries.set(k, DirEntry { ino: 0, name: Vec::new() });
    let ghost removed = inodes[d].entries.update(k as int, Entry { ino: 0, name: seq![] });
    proof {
        assert(fs.inodes@[d].entries@[k as int].name@ =~= seq![]);
        assert(fs@[d].entries =~= removed);
        assert(fs@ =~= inodes.update(d, InodeView { entries: removed, ..inodes[d] }));
    }
    if is_dir {
        // the directory does not refer to its parent any more
        let nlink: u16 = get_nlink(fs, dir) - 1;
        set_nlink(fs, dir, nlink);
    }
    let nlink: u16 = get_nlink(fs, ino) - 1;
    set_nlink(fs, ino, nlink);
    proof {
        let after = unlinked(inodes, d, k as int);
        assert(fs@[d] =~= after[d]);
        assert(fs@ =~= after);
    }
    Ok(())
}

/// A short name is all that counts.
pub proof fn lemma_short_key(name: Seq<u8>, short: Seq<u8>)
    requires
        short.len() < super::path::DIR_SIZE,
    ensures
        key(name) == short ==> name == short,
{
}

/// Gives a file another name.
///
/// `write` is what comes of writing the entry: its directory may have no room for it.
pub fn link(
    fs: &mut FileSystem,
    cwd: usize,
    old_path: &Path,
    new_path: &Path,
    write: Result<(), KernelError>,
) -> (r: Result<(), KernelError>)
    requires
        old(fs).wf(),
        old(fs).live(cwd as int),
        link_spec(
            old(fs)@,
            start_of(old_path.absolute, cwd as int),
            old_path@,
            start_of(new_path.absolute, cwd as int),
            new_path@,
            write,
        ).0 is Ok ==> (walk(
            old(fs)@,
            start_of(old_path.absolute, cwd as int),
            old_path@,
        ) matches Ok(f) ==> old(fs)@[f].nlink < u16::MAX),
    ensures
        final(fs).wf(),
        (r, final(fs)@) == link_spec(
            old(fs)@,
            start_of(old_path.absolute, cwd as int),
            old_path@,
            start_of(new_path.absolute, cwd as int),
            new_path@,
            write,
        ),
{
    let ghost inodes = fs@;
    let n: usize = new_path.names.len();
    if n == 0 {
        return Err(KernelError::LinkRootDir);
    }
    let ghost names = new_path@;
    proof {
        assert(names.take(n - 1) =~= names.drop_last());
        assert(names.last() == new_path.names@[n - 1]@);
        assert(old_path@.take(old_path.names@.len() as int) =~= old_path@);
    }
    let file: usize = match fs.resolve(cwd, old_path, old_path.names.len()) {
        Ok(file) => file,
        Err(e) => {
            return Err(e);
        },
    };
    if fs.inodes[file].ty == T_DIR {
        return Err(KernelError::NonDirectoryPathComponent);
    }
    let dir: usize = match fs.resolve(cwd, new_path, n - 1) {
        Ok(dir) => dir,
        Err(e) => {
            return Err(e);
        },
    };
    if fs.inodes[dir].dev != fs.inodes[file].dev {
        return Err(KernelError::LinkCrossDevices);
    }
    if fs.inodes[dir].ty != T_DIR {
        return Err(KernelError::LinkToNonDirectory);
    }
    if fs.lookup(dir, &new_path.names[n - 1]).is_some() {
        return Err(KernelError::LinkAlreadyExists);
    }
    if let Err(e) = write {
        return Err(e);
    }
    proof {
        law_link_keeps_links(inodes, dir as int, file as int, names.last());
    }
    let name: Vec<u8> = copy_key(&new_path.names[n - 1]);
    add_entry(fs, dir, file, name);
    let nlink: u16 = get_nlink(fs, file) + 1;
    set_nlink(fs, file, nlink);
    proof {
        let after = linked(inodes, dir as int, file as int, names.last());
        assert(fs@[file as int] =~= after[file as int]);
        assert(fs@ =~= after);
    }
    Ok(())
}

/// A new entry with another name does not get in the way of a name.
pub proof fn lemma_find_beside(entries: Seq<Entry>, e: Entry, name: Seq<u8>, k: nat)
    requires
        k <= entries.len(),
        e.name != key(name),
    ensures
        find_entry(with_entry(entries, e), name, k) == find_entry(entries, name, k),
    decreases entries.len() - k,
{
    lemma_free_entry(entries, 0);
    let b = with_entry(entries, e);
    if k < entries.len() {
        assert(has_name(b[k as int], name) == has_name(entries[k as int], name));
        lemma_find_beside(entries, e, name, k + 1);
    } else if k < b.len() {
        assert(b[k as int] == e);
        assert(find_entry(b, name, k + 1) is None);
    }
}

/// Where a path leads, it still leads after something has been made.
proof fn lemma_walk_still(
    inodes: Seq<InodeView>,
    d: int,
    n: int,
    name: Seq<u8>,
    ty: u16,
    major: u32,
    minor: u16,
    start: int,
    names: Seq<Seq<u8>>,
)
    requires
        fs_wf(inodes),
        0 <= d < inodes.len(),
        inodes[d].ty == T_DIR,
        has_dots(inodes[d]),
        0 < n < inodes.len(),
        inodes[n].ty == T_FREE,
        find_entry(inodes[d].entries, name, 0) is None,
        0 <= start < inodes.len(),
        inodes[start].ty != T_FREE,
        walk(inodes, start, names) is Ok,
    ensures
        walk(created(inodes, d, n, name, ty, major, minor), start, names) == walk(
            inodes,
            start,
            names,
        ),
        0 <= walk(inodes, start, names)->Ok_0 < inodes.len(),
        inodes[walk(inodes, start, names)->Ok_0].ty != T_FREE,
    decreases names.len(),
{
    let after = created(inodes, d, n, name, ty, major, minor);
    if names.len() > 0 {
        lemma_walk_still(inodes, d, n, name, ty, major, minor, start, names.drop_last());
        let dir = walk(inodes, start, names.drop_last())->Ok_0;
        let last = names.last();
        assert(inode_wf(inodes, dir));
        lemma_find(inodes[dir].entries, last, 0);
        let k = find_entry(inodes[dir].entries, last, 0)->0;
        assert(inodes[dir].entries[k].ino != 0);
        assert(dir != n);
        if dir == d {
            let e = Entry { ino: n, name: key(name) };
            if key(last) == key(name) {
                lemma_find(inodes[d].entries, name, 0);
                assert(has_name(inodes[d].entries[k], name));
            }
            lemma_find_beside(inodes[d].entries, e, last, 0);
            lemma_with_entry(inodes[d].entries, e);
            lemma_free_entry(inodes[d].entries, 0);
        }
    }
}

/// A path at which something has just been made leads to it.
pub proof fn law_create_then_walk(
    inodes: Seq<InodeView>,
    start: int,
    names: Seq<Seq<u8>>,
    ty: u16,
    major: u32,
    minor: u16,
    writes: DirWrites,
)
    requires
        fs_wf(inodes),
        0 <= start < inodes.len(),
        inodes[start].ty != T_FREE,
        is_whole(inodes[start]),
        ty != T_FREE,
        create_spec(inodes, start, names, ty, major, minor, writes).0 is Ok,
    ensures
        walk(create_spec(inodes, start, names, ty, major, minor, writes).1, start, names) == create_spec(
            inodes,
            start,
            names,
            ty,
            major,
            minor,
            writes,
        ).0,
{
    let after = create_spec(inodes, start, names, ty, major, minor, writes).1;
    let name = names.last();
    let d = walk(inodes, start, names.drop_last())->Ok_0;
    if find_entry(inodes[d].entries, name, 0) is None {
        lemma_walk_live(inodes, start, names.drop_last());
        lemma_free_inode(inodes, inodes[d].dev, 0);
        let n = free_inode(inodes, inodes[d].dev, 0)->0;
        lemma_walk_still(inodes, d, n, name, ty, major, minor, start, names.drop_last());
        let e = Entry { ino: n, name: key(name) };
        assert(inode_wf(inodes, d));
        lemma_find(inodes[d].entries, name, 0);
        lemma_with_entry(inodes[d].entries, e);
        lemma_free_entry(inodes[d].entries, 0);
        let entries = with_entry(inodes[d].entries, e);
        lemma_find(entries, name, 0);
        assert(after[d].entries == entries);
        let k = free_entry(inodes[d].entries, 0) as int;
        assert(entries[k] == e);
        assert(has_name(entries[k], name));
        let i = find_entry(entries, name, 0)->0;
        assert(entries[i] == e) by {
            if i < inodes[d].entries.len() && entries[i] == inodes[d].entries[i] {
                assert(!has_name(inodes[d].entries[i], name));
            }
        }
    }
}

/// A path leads to an inode in use that has been made completely.
pub proof fn lemma_walk_live(inodes: Seq<InodeView>, start: int, names: Seq<Seq<u8>>)
    requires
        fs_wf(inodes),
        0 <= start < inodes.len(),
        inodes[start].ty != T_FREE,
        is_whole(inodes[start]),
        walk(inodes, start, names) is Ok,
    ensures
        0 <= walk(inodes, start, names)->Ok_0 < inodes.len(),
        inodes[walk(inodes, start, names)->Ok_0].ty != T_FREE,
        is_whole(inodes[walk(inodes, start, names)->Ok_0]),
    decreases names.len(),
{
    if names.len() > 0 {
        lemma_walk_live(inodes, start, names.drop_last());
        let dir = walk(inodes, start, names.drop_last())->Ok_0;
        assert(inode_wf(inodes, dir));
        lemma_find(inodes[dir].entries, names.last(), 0);
        let k = find_entry(inodes[dir].entries, names.last(), 0)->0;
        assert(inodes[dir].entries[k].ino != 0);
    }
}

/// After a name has been removed, each name leads where it led before or nowhere.
pub proof fn lemma_walk_after_unlink(
    inodes: Seq<InodeView>,
    d: int,
    k: int,
    start: int,
    names: Seq<Seq<u8>>,
)
    requires
        fs_wf(inodes),
        is_regular(inodes, d, k),
        0 <= start < inodes.len(),
        inodes[start].ty != T_FREE,
        is_whole(inodes[start]),
    ensures
        ({
            let after = walk(unlinked(inodes, d, k), start, names);
            after == walk(inodes, start, names) || after == Err::<int, KernelError>(
                KernelError::FsEntryNotFound,
            )
        }),
    decreases names.len(),
{
    let after = unlinked(inodes, d, k);
    lemma_regular(inodes, d, k);
    if names.len() > 0 {
        lemma_walk_after_unlink(inodes, d, k, start, names.drop_last());
        match walk(after, start, names.drop_last()) {
            Ok(dir) => {
                lemma_walk_live(inodes, start, names.drop_last());
                assert(after[dir].ty == inodes[dir].ty);
                if dir == d {
                    assert(inode_wf(inodes, d));
                    lemma_find(inodes[d].entries, names.last(), 0);
                    lemma_find_without(inodes[d].entries, k, names.last(), 0);
                } else {
                    assert(after[dir].entries == inodes[dir].entries);
                }
            },
            Err(_) => {},
        }
    }
}

/// With one entry removed, the same entry is found as before, unless it was that.
proof fn lemma_find_without(entries: Seq<Entry>, k: int, name: Seq<u8>, from: nat)
    requires
        0 <= k < entries.len(),
        entries[k].ino != 0,
        names_differ(entries),
        from <= entries.len(),
    ensures
        ({
            let b = entries.update(k, Entry { ino: 0, name: seq![] });
            if has_name(entries[k], name) {
                find_entry(b, name, from) is None
            } else {
                find_entry(b, name, from) == find_entry(entries, name, from)
            }
        }),
    decreases entries.len() - from,
{
    if from < entries.len() {
        lemma_find_without(entries, k, name, from + 1);
        if has_name(entries[k], name) && from != k {
            assert(!has_name(entries[from as int], name));
        }
    }
}

/// A path whose last name has been removed leads nowhere.
pub proof fn law_unlink_then_walk(inodes: Seq<InodeView>, start: int, names: Seq<Seq<u8>>)
    requires
        fs_wf(inodes),
        0 <= start < inodes.len(),
        inodes[start].ty != T_FREE,
        is_whole(inodes[start]),
        unlink_spec(inodes, start, names).0 is Ok,
    ensures
        walk(unlink_spec(inodes, start, names).1, start, names) == Err::<int, KernelError>(
            KernelError::FsEntryNotFound,
        ),
{
    let d = walk(inodes, start, names.drop_last())->Ok_0;
    let name = names.last();
    lemma_walk_live(inodes, start, names.drop_last());
    lemma_find(inodes[d].entries, name, 0);
    let k = find_entry(inodes[d].entries, name, 0)->0;
    assert(inode_wf(inodes, d));
    lemma_short_key(name, dot());
    lemma_short_key(name, dot_dot());
    assert(k >= 2);
    lemma_regular(inodes, d, k);
    lemma_walk_after_unlink(inodes, d, k, start, names.drop_last());
    lemma_find_without(inodes[d].entries, k, name, 0);
}

} // verus!
