//! What making, naming and removing files means for paths and links.
use super::inode::{
    find_entry, fs_wf, has_dots, has_name, inode_wf, is_whole, lemma_find, names_differ, walk,
    with_entry, Entry, InodeView,
};
use super::ops::{
    create_spec, free_inode, lemma_find_beside, lemma_free_entry, lemma_free_inode, lemma_new_name,
    lemma_regular, lemma_short_key, lemma_walk_after_unlink, lemma_walk_live, lemma_with_entry,
    link_spec, unlink_spec, DirWrites,
};
use super::path::key;
use crate::error::KernelError;
use vstd::prelude::*;

verus! {

/// A name in a directory leads to the inode that the entry with this name names, and to
/// none if there is no such entry. What is not a directory leads nowhere.
pub proof fn law_lookup(inodes: Seq<InodeView>, d: int, name: Seq<u8>)
    requires
        fs_wf(inodes),
        0 <= d < inodes.len(),
    ensures
        inodes[d].ty != 1 ==> walk(inodes, d, seq![name]) == Err::<int, KernelError>(
            KernelError::NonDirectoryPathComponent,
        ),
        inodes[d].ty == 1 ==> {
            &&& forall|k: int|
                {
                    let e = #[trigger] inodes[d].entries[k];
                    0 <= k < inodes[d].entries.len() && e.ino != 0 && e.name == key(name)
                } ==> walk(inodes, d, seq![name]) == Ok::<int, KernelError>(
                    inodes[d].entries[k].ino,
                )
            &&& (forall|k: int|
                0 <= k < inodes[d].entries.len() && (#[trigger] inodes[d].entries[k]).ino != 0
                    ==> inodes[d].entries[k].name != key(name)) ==> walk(inodes, d, seq![name])
                == Err::<int, KernelError>(KernelError::FsEntryNotFound)
        },
{
    let names = seq![name];
    let entries = inodes[d].entries;
    assert(names.drop_last() =~= seq![]);
    assert(walk(inodes, d, seq![]) == Ok::<int, KernelError>(d));
    assert(names.last() == name);
    lemma_find(entries, name, 0);
    assert(inode_wf(inodes, d));
    if inodes[d].ty == 1 {
        assert forall|k: int|
            {
                let e = #[trigger] entries[k];
                0 <= k < entries.len() && e.ino != 0 && e.name == key(name)
            } implies walk(inodes, d, names) == Ok::<int, KernelError>(entries[k].ino) by {
            assert(has_name(entries[k], name));
            let j = find_entry(entries, name, 0)->0;
            if j != k {
                assert(entries[j].name != entries[k].name);
            }
        }
        if find_entry(entries, name, 0) is Some {
            let j = find_entry(entries, name, 0)->0;
            assert(entries[j].ino != 0 && entries[j].name == key(name));
        }
    }
}

/// A path is followed name by name: where one path ends, the rest begins. If its first
/// part leads nowhere, it leads nowhere, for the same reason.
pub proof fn law_walk_on(inodes: Seq<InodeView>, start: int, a: Seq<Seq<u8>>, b: Seq<Seq<u8>>)
    ensures
        walk(inodes, start, seq![]) == Ok::<int, KernelError>(start),
        walk(inodes, start, a + b) == (match walk(inodes, start, a) {
            Ok(mid) => walk(inodes, mid, b),
            Err(e) => Err(e),
        }),
    decreases b.len(),
{
    if b.len() == 0 {
        assert(a + b =~= a);
    } else {
        assert((a + b).drop_last() =~= a + b.drop_last());
        assert((a + b).last() == b.last());
        law_walk_on(inodes, start, a, b.drop_last());
    }
}

/// A path whose last name leads nowhere has no entry for it in its directory.
proof fn lemma_nothing_there(inodes: Seq<InodeView>, start: int, names: Seq<Seq<u8>>, d: int)
    requires
        names.len() > 0,
        walk(inodes, start, names.drop_last()) == Ok::<int, KernelError>(d),
        inodes[d].ty == 1,
    ensures
        walk(inodes, start, names) is Err <==> find_entry(inodes[d].entries, names.last(), 0)
            is None,
{
}

/// Whether a directory has got one entry more: each entry in use is still there, and the
/// new one is the only one besides them.
pub open spec fn gained(before: Seq<Entry>, after: Seq<Entry>, ino: int, name: Seq<u8>) -> bool {
    &&& forall|k: int|
        0 <= k < before.len() && (#[trigger] before[k]).ino != 0 ==> k < after.len() && after[k]
            == before[k]
    &&& exists|k: int|
        {
            &&& 0 <= k < after.len()
            &&& (#[trigger] after[k]).ino == ino
            &&& after[k].name == key(name)
            &&& k < before.len() ==> before[k].ino == 0
            &&& forall|j: int|
                0 <= j < after.len() && j != k && (#[trigger] after[j]).ino != 0 ==> j
                    < before.len() && before[j] == after[j]
        }
}

proof fn lemma_gained(before: Seq<Entry>, e: Entry, name: Seq<u8>)
    requires
        e.name == key(name),
    ensures
        gained(before, with_entry(before, e), e.ino, name),
{
    lemma_free_entry(before, 0);
    let k = super::inode::free_entry(before, 0) as int;
    let after = with_entry(before, e);
    assert(after[k] == e);
}

/// What is made is what was asked for.
///
/// Whenever something is made at a path at which nothing was, the path leads to an inode
/// that was free. It has the type and the numbers that were asked for, is on the device
/// of its directory, has one link, and has no entries but `.`, for itself, and `..`, for
/// its directory, and these only if it is a directory. Its directory has one entry more,
/// and one link more if a directory was made. Nothing else changes.
pub proof fn law_made_as_asked(
    inodes: Seq<InodeView>,
    start: int,
    names: Seq<Seq<u8>>,
    ty: u16,
    major: u32,
    minor: u16,
    writes: DirWrites,
    d: int,
    n: int,
)
    requires
        fs_wf(inodes),
        0 <= start < inodes.len(),
        inodes[start].ty != 0,
        is_whole(inodes[start]),
        ty != 0,
        names.len() > 0,
        walk(inodes, start, names) is Err,
        walk(inodes, start, names.drop_last()) == Ok::<int, KernelError>(d),
        ty == 1 ==> inodes[d].nlink < u16::MAX,
        create_spec(inodes, start, names, ty, major, minor, writes).0 == Ok::<int, KernelError>(n),
    ensures
        ({
            let after = create_spec(inodes, start, names, ty, major, minor, writes).1;
            &&& walk(after, start, names) == Ok::<int, KernelError>(n)
            &&& 0 < n < inodes.len()
            &&& n != d
            &&& inodes[n].ty == 0
            &&& after.len() == inodes.len()
            &&& after[n].ty == ty
            &&& after[n].major == major
            &&& after[n].minor == minor
            &&& after[n].dev == inodes[d].dev
            &&& after[n].nlink == 1
            &&& ty != 1 ==> after[n].entries.len() == 0
            &&& ty == 1 ==> {
                &&& after[n].entries.len() == 2
                &&& after[n].entries[0].ino == n
                &&& after[n].entries[0].name == seq![0x2eu8]
                &&& after[n].entries[1].ino == d
                &&& after[n].entries[1].name == seq![0x2eu8, 0x2eu8]
            }
            &&& gained(inodes[d].entries, after[d].entries, n, names.last())
            &&& after[d].nlink == inodes[d].nlink + (if ty == 1 {
                1int
            } else {
                0
            })
            &&& after[d].dev == inodes[d].dev
            &&& after[d].ty == inodes[d].ty
            &&& after[d].major == inodes[d].major
            &&& after[d].minor == inodes[d].minor
            &&& forall|j: int|
                0 <= j < inodes.len() && j != n && j != d ==> #[trigger] after[j] == inodes[j]
        }),
{
    lemma_walk_live(inodes, start, names.drop_last());
    assert(inodes[d].ty == 1);
    lemma_nothing_there(inodes, start, names, d);
    lemma_free_inode(inodes, inodes[d].dev, 0);
    super::ops::law_create_then_walk(inodes, start, names, ty, major, minor, writes);
    lemma_gained(inodes[d].entries, Entry { ino: n, name: key(names.last()) }, names.last());
}

/// What is there already stays as it is: a file or a device is found where a file was
/// asked for, and all else is refused.
pub proof fn law_make_what_is_there(
    inodes: Seq<InodeView>,
    start: int,
    names: Seq<Seq<u8>>,
    ty: u16,
    major: u32,
    minor: u16,
    writes: DirWrites,
    f: int,
)
    requires
        names.len() > 0,
        walk(inodes, start, names) == Ok::<int, KernelError>(f),
    ensures
        create_spec(inodes, start, names, ty, major, minor, writes).1 == inodes,
        create_spec(inodes, start, names, ty, major, minor, writes).0 == (if ty == 2 && (
        inodes[f].ty == 2 || inodes[f].ty == 3) {
            Ok::<int, KernelError>(f)
        } else {
            Err(KernelError::CreateAlreadyExists)
        }),
{
    let d = walk(inodes, start, names.drop_last())->Ok_0;
    lemma_find(inodes[d].entries, names.last(), 0);
}

/// Something can be made where nothing is, if the directory is there, an inode on its
/// device is free, and there is room for the entries. Where it fails, no inode that was in
/// use changes, and an inode that was taken has no link.
pub proof fn law_make_succeeds(
    inodes: Seq<InodeView>,
    start: int,
    names: Seq<Seq<u8>>,
    ty: u16,
    major: u32,
    minor: u16,
    writes: DirWrites,
    free: int,
)
    requires
        fs_wf(inodes),
        0 <= start < inodes.len(),
        inodes[start].ty != 0,
        is_whole(inodes[start]),
        ty != 0,
        names.len() > 0,
    ensures
        ({
            let (r, after) = create_spec(inodes, start, names, ty, major, minor, writes);
            &&& ({
                &&& walk(inodes, start, names) is Err
                &&& walk(inodes, start, names.drop_last()) is Ok
                &&& inodes[walk(inodes, start, names.drop_last())->Ok_0].ty == 1
                &&& 0 < free < inodes.len()
                &&& inodes[free].ty == 0
                &&& inodes[free].dev == inodes[walk(inodes, start, names.drop_last())->Ok_0].dev
                &&& writes.name is Ok
                &&& ty == 1 ==> writes.dot is Ok && writes.dot_dot is Ok
            }) ==> r is Ok
            &&& r is Err ==> {
                &&& after.len() == inodes.len()
                &&& forall|j: int|
                    0 <= j < inodes.len() && (#[trigger] inodes[j]).ty != 0 ==> after[j]
                        == inodes[j]
                &&& forall|j: int|
                    0 <= j < inodes.len() && #[trigger] after[j] != inodes[j] ==> after[j].nlink
                        == 0
            }
        }),
{
    if walk(inodes, start, names.drop_last()) is Ok {
        let d = walk(inodes, start, names.drop_last())->Ok_0;
        lemma_walk_live(inodes, start, names.drop_last());
        lemma_free_inode(inodes, inodes[d].dev, 0);
        if 0 < free < inodes.len() && inodes[free].ty == 0 && inodes[free].dev == inodes[d].dev {
            lemma_some_free(inodes, inodes[d].dev, 0, free);
        }
    }
}

/// Where an inode is free, one is found.
proof fn lemma_some_free(inodes: Seq<InodeView>, dev: u32, k: nat, free: int)
    requires
        0 < free < inodes.len(),
        k <= free,
        inodes[free].ty == 0,
        inodes[free].dev == dev,
    ensures
        free_inode(inodes, dev, k) is Some,
    decreases free - k,
{
    if k < free {
        lemma_some_free(inodes, dev, k + 1, free);
    }
}

/// Where a path leads, it still leads after a directory has got an entry with a name that
/// it did not have.
proof fn lemma_walk_still(
    inodes: Seq<InodeView>,
    after: Seq<InodeView>,
    d: int,
    ino: int,
    name: Seq<u8>,
    start: int,
    names: Seq<Seq<u8>>,
)
    requires
        fs_wf(inodes),
        0 <= d < inodes.len(),
        inodes[d].ty == 1,
        has_dots(inodes[d]),
        find_entry(inodes[d].entries, name, 0) is None,
        after.len() == inodes.len(),
        after[d].ty == 1,
        after[d].entries == with_entry(inodes[d].entries, Entry { ino, name: key(name) }),
        forall|j: int|
            0 <= j < inodes.len() && j != d && (#[trigger] inodes[j]).ty != 0 ==> after[j].ty
                == inodes[j].ty && after[j].entries == inodes[j].entries,
        0 <= start < inodes.len(),
        inodes[start].ty != 0,
        is_whole(inodes[start]),
        walk(inodes, start, names) is Ok,
    ensures
        walk(after, start, names) == walk(inodes, start, names),
    decreases names.len(),
{
    if names.len() > 0 {
        lemma_walk_still(inodes, after, d, ino, name, start, names.drop_last());
        lemma_walk_live(inodes, start, names.drop_last());
        let dir = walk(inodes, start, names.drop_last())->Ok_0;
        let last = names.last();
        lemma_find(inodes[dir].entries, last, 0);
        let k = find_entry(inodes[dir].entries, last, 0)->0;
        if dir == d {
            if key(last) == key(name) {
                lemma_find(inodes[d].entries, name, 0);
                assert(has_name(inodes[d].entries[k], name));
            }
            let e = Entry { ino, name: key(name) };
            lemma_find_beside(inodes[d].entries, e, last, 0);
            lemma_with_entry(inodes[d].entries, e);
            lemma_free_entry(inodes[d].entries, 0);
        }
    }
}

/// Making something changes where no path leads that led somewhere.
pub proof fn law_make_keeps_paths(
    inodes: Seq<InodeView>,
    start: int,
    names: Seq<Seq<u8>>,
    ty: u16,
    major: u32,
    minor: u16,
    writes: DirWrites,
    other_start: int,
    other: Seq<Seq<u8>>,
)
    requires
        fs_wf(inodes),
        0 <= start < inodes.len(),
        inodes[start].ty != 0,
        is_whole(inodes[start]),
        ty != 0,
        0 <= other_start < inodes.len(),
        inodes[other_start].ty != 0,
        is_whole(inodes[other_start]),
        walk(inodes, other_start, other) is Ok,
    ensures
        walk(
            create_spec(inodes, start, names, ty, major, minor, writes).1,
            other_start,
            other,
        ) == walk(inodes, other_start, other),
    decreases other.len(),
{
    let (r, after) = create_spec(inodes, start, names, ty, major, minor, writes);
    if names.len() == 0 || walk(inodes, start, names.drop_last()) is Err || walk(
        inodes,
        start,
        names,
    ) is Ok {
        if walk(inodes, start, names) is Ok && names.len() > 0 {
            law_make_what_is_there(
                inodes,
                start,
                names,
                ty,
                major,
                minor,
                writes,
                walk(inodes, start, names)->Ok_0,
            );
        }
        assert(after == inodes);
    } else if r is Err {
        law_make_succeeds(inodes, start, names, ty, major, minor, writes, 0);
        if other.len() > 0 {
            law_make_keeps_paths(
                inodes,
                start,
                names,
                ty,
                major,
                minor,
                writes,
                other_start,
                other.drop_last(),
            );
            lemma_walk_live(inodes, other_start, other.drop_last());
            let dir = walk(inodes, other_start, other.drop_last())->Ok_0;
            assert(after[dir] == inodes[dir]);
        }
    } else {
        let d = walk(inodes, start, names.drop_last())->Ok_0;
        let n = r->Ok_0;
        lemma_walk_live(inodes, start, names.drop_last());
        lemma_free_inode(inodes, inodes[d].dev, 0);
        lemma_nothing_there(inodes, start, names, d);
        lemma_walk_still(inodes, after, d, n, names.last(), other_start, other);
    }
}

/// Another name for a file leads to the same inode as the name that it had, which still
/// does. The inode has one link more, and the directory one entry more; nothing else
/// changes.
pub proof fn law_link_then_walk(
    inodes: Seq<InodeView>,
    old_start: int,
    old_names: Seq<Seq<u8>>,
    new_start: int,
    new_names: Seq<Seq<u8>>,
    write: Result<(), KernelError>,
    f: int,
    d: int,
)
    requires
        fs_wf(inodes),
        0 <= old_start < inodes.len(),
        inodes[old_start].ty != 0,
        is_whole(inodes[old_start]),
        0 <= new_start < inodes.len(),
        inodes[new_start].ty != 0,
        is_whole(inodes[new_start]),
        walk(inodes, old_start, old_names) == Ok::<int, KernelError>(f),
        new_names.len() > 0,
        walk(inodes, new_start, new_names.drop_last()) == Ok::<int, KernelError>(d),
        inodes[f].nlink < u16::MAX,
        link_spec(inodes, old_start, old_names, new_start, new_names, write).0 is Ok,
    ensures
        ({
            let after = link_spec(inodes, old_start, old_names, new_start, new_names, write).1;
            &&& walk(inodes, new_start, new_names) is Err
            &&& walk(after, new_start, new_names) == Ok::<int, KernelError>(f)
            &&& walk(after, old_start, old_names) == Ok::<int, KernelError>(f)
            &&& f != d
            &&& inodes[f].ty != 1
            &&& inodes[d].dev == inodes[f].dev
            &&& after.len() == inodes.len()
            &&& after[f].nlink == inodes[f].nlink + 1
            &&& after[f] == (InodeView { nlink: after[f].nlink, ..inodes[f] })
            &&& gained(inodes[d].entries, after[d].entries, f, new_names.last())
            &&& after[d] == (InodeView { entries: after[d].entries, ..inodes[d] })
            &&& forall|j: int|
                0 <= j < inodes.len() && j != f && j != d ==> #[trigger] after[j] == inodes[j]
        }),
{
    let after = link_spec(inodes, old_start, old_names, new_start, new_names, write).1;
    let name = new_names.last();
    lemma_walk_live(inodes, old_start, old_names);
    lemma_walk_live(inodes, new_start, new_names.drop_last());
    lemma_nothing_there(inodes, new_start, new_names, d);
    let e = Entry { ino: f, name: key(name) };
    lemma_gained(inodes[d].entries, e, name);
    lemma_walk_still(inodes, after, d, f, name, old_start, old_names);
    lemma_walk_still(inodes, after, d, f, name, new_start, new_names.drop_last());
    let b = after[d].entries;
    lemma_find(b, name, 0);
    lemma_find(inodes[d].entries, name, 0);
    let k = choose|k: int|
        {
            &&& 0 <= k < b.len()
            &&& (#[trigger] b[k]).ino == f
            &&& b[k].name == key(name)
            &&& k < inodes[d].entries.len() ==> inodes[d].entries[k].ino == 0
            &&& forall|j: int|
                0 <= j < b.len() && j != k && (#[trigger] b[j]).ino != 0 ==> j
                    < inodes[d].entries.len() && inodes[d].entries[j] == b[j]
        };
    assert(f != 0) by {
        assert(inodes[0].ty == 0);
    }
    assert(has_name(b[k], name));
    let i = find_entry(b, name, 0)->0;
    if i != k {
        assert(b[i].ino != 0);
        assert(!has_name(inodes[d].entries[i], name));
    }
}

/// When a file gets another name: whenever both paths are there and on one device, the
/// one leads to a file, the other to a directory in which the name is free, and there is
/// room for the entry. Otherwise nothing changes.
pub proof fn law_link_succeeds(
    inodes: Seq<InodeView>,
    old_start: int,
    old_names: Seq<Seq<u8>>,
    new_start: int,
    new_names: Seq<Seq<u8>>,
    write: Result<(), KernelError>,
)
    ensures
        ({
            let (r, after) = link_spec(
                inodes,
                old_start,
                old_names,
                new_start,
                new_names,
                write,
            );
            let old_end = walk(inodes, old_start, old_names);
            let dir_end = walk(inodes, new_start, new_names.drop_last());
            &&& r is Ok <==> {
                &&& new_names.len() > 0
                &&& old_end is Ok
                &&& inodes[old_end->Ok_0].ty != 1
                &&& dir_end is Ok
                &&& inodes[dir_end->Ok_0].ty == 1
                &&& inodes[dir_end->Ok_0].dev == inodes[old_end->Ok_0].dev
                &&& walk(inodes, new_start, new_names) is Err
                &&& write is Ok
            }
            &&& r is Err ==> after == inodes
            &&& new_names.len() > 0 && old_end is Ok && inodes[old_end->Ok_0].ty == 1 ==> r
                == Err::<(), KernelError>(KernelError::NonDirectoryPathComponent)
            &&& r is Err && write is Ok && new_names.len() > 0 && old_end is Ok
                && inodes[old_end->Ok_0].ty != 1 && dir_end is Ok && inodes[dir_end->Ok_0].dev
                == inodes[old_end->Ok_0].dev && inodes[dir_end->Ok_0].ty == 1 ==> r == Err::<
                (),
                KernelError,
            >(KernelError::LinkAlreadyExists)
        }),
{
    if new_names.len() > 0 {
        match walk(inodes, new_start, new_names.drop_last()) {
            Ok(d) => {
                if inodes[d].ty == 1 {
                    lemma_nothing_there(inodes, new_start, new_names, d);
                }
            },
            Err(_) => {},
        }
    }
}

/// What removing a name does: the path leads nowhere any more. What it led to has one link
/// less, and its directory one entry less, and one link less too if a directory was
/// removed. Nothing else changes.
pub proof fn law_removed(
    inodes: Seq<InodeView>,
    start: int,
    names: Seq<Seq<u8>>,
    d: int,
    f: int,
)
    requires
        fs_wf(inodes),
        0 <= start < inodes.len(),
        inodes[start].ty != 0,
        is_whole(inodes[start]),
        names.len() > 0,
        walk(inodes, start, names.drop_last()) == Ok::<int, KernelError>(d),
        walk(inodes, start, names) == Ok::<int, KernelError>(f),
        unlink_spec(inodes, start, names).0 is Ok,
    ensures
        ({
            let after = unlink_spec(inodes, start, names).1;
            &&& walk(after, start, names) is Err
            &&& f != d
            &&& after.len() == inodes.len()
            &&& after[f].nlink == inodes[f].nlink - 1
            &&& after[f] == (InodeView { nlink: after[f].nlink, ..inodes[f] })
            &&& after[d].nlink == inodes[d].nlink - (if inodes[f].ty == 1 {
                1int
            } else {
                0
            })
            &&& after[d] == (InodeView {
                nlink: after[d].nlink,
                entries: after[d].entries,
                ..inodes[d]
            })
            &&& gained(after[d].entries, inodes[d].entries, f, names.last())
            &&& forall|j: int|
                0 <= j < inodes.len() && j != f && j != d ==> #[trigger] after[j] == inodes[j]
        }),
{
    let name = names.last();
    super::ops::law_unlink_then_walk(inodes, start, names);
    lemma_walk_live(inodes, start, names.drop_last());
    let k = find_entry(inodes[d].entries, name, 0)->0;
    lemma_find(inodes[d].entries, name, 0);
    assert(inode_wf(inodes, d));
    lemma_short_key(name, super::inode::dot());
    lemma_short_key(name, super::inode::dot_dot());
    assert(k >= 2);
    lemma_regular(inodes, d, k);
    let after = unlink_spec(inodes, start, names).1;
    let less = after[d].entries;
    assert(inodes[d].entries[k].ino == f);
    assert forall|j: int|
        0 <= j < inodes[d].entries.len() && j != k && (#[trigger] inodes[d].entries[j]).ino
            != 0 implies j < less.len() && less[j] == inodes[d].entries[j] by {}
}

/// When a name is removed: whenever it is there, is neither `.` nor `..`, and does not
/// lead to a directory with an entry besides these. Otherwise nothing changes.
pub proof fn law_remove_succeeds(inodes: Seq<InodeView>, start: int, names: Seq<Seq<u8>>)
    ensures
        ({
            let (r, after) = unlink_spec(inodes, start, names);
            let end = walk(inodes, start, names);
            let dots = names.last() == seq![0x2eu8] || names.last() == seq![0x2eu8, 0x2eu8];
            let full = end is Ok && inodes[end->Ok_0].ty == 1 && exists|k: int|
                2 <= k < inodes[end->Ok_0].entries.len() && (
                #[trigger] inodes[end->Ok_0].entries[k]).ino != 0;
            &&& r is Ok <==> names.len() > 0 && end is Ok && !dots && !full
            &&& r is Err ==> after == inodes
            &&& names.len() == 0 ==> r == Err::<(), KernelError>(KernelError::UnlinkRootDir)
            &&& names.len() > 0 && walk(inodes, start, names.drop_last()) is Ok && dots ==> r
                == Err::<(), KernelError>(KernelError::UnlinkDots)
            &&& names.len() > 0 && end is Ok && !dots && full ==> r == Err::<(), KernelError>(
                KernelError::DirectoryNotEmpty,
            )
            &&& names.len() > 0 && !dots && end is Err ==> r == Err::<(), KernelError>(
                end->Err_0,
            )
        }),
{
    assert(super::inode::dot() =~= seq![0x2eu8]);
    assert(super::inode::dot_dot() =~= seq![0x2eu8, 0x2eu8]);
}

/// Removing a name changes where no path leads that led somewhere, but for those that went
/// by this name: each leads where it led, or nowhere any more.
pub proof fn law_remove_keeps_paths(
    inodes: Seq<InodeView>,
    start: int,
    names: Seq<Seq<u8>>,
    other_start: int,
    other: Seq<Seq<u8>>,
)
    requires
        fs_wf(inodes),
        0 <= start < inodes.len(),
        inodes[start].ty != 0,
        is_whole(inodes[start]),
        0 <= other_start < inodes.len(),
        inodes[other_start].ty != 0,
        is_whole(inodes[other_start]),
    ensures
        ({
            let after = walk(unlink_spec(inodes, start, names).1, other_start, other);
            after == walk(inodes, other_start, other) || after == Err::<int, KernelError>(
                KernelError::FsEntryNotFound,
            )
        }),
{
    if unlink_spec(inodes, start, names).0 is Ok {
        let d = walk(inodes, start, names.drop_last())->Ok_0;
        let name = names.last();
        lemma_walk_live(inodes, start, names.drop_last());
        let k = find_entry(inodes[d].entries, name, 0)->0;
        lemma_find(inodes[d].entries, name, 0);
        assert(inode_wf(inodes, d));
        lemma_short_key(name, super::inode::dot());
        lemma_short_key(name, super::inode::dot_dot());
        lemma_walk_after_unlink(inodes, d, k, other_start, other);
    }
}

/// What has just been made can be removed again, and then all is as it was before: no
/// inode that was in use has changed, but for places in its directory that are free.
pub proof fn law_make_then_remove(
    inodes: Seq<InodeView>,
    start: int,
    names: Seq<Seq<u8>>,
    ty: u16,
    major: u32,
    minor: u16,
    writes: DirWrites,
    d: int,
    n: int,
)
    requires
        fs_wf(inodes),
        0 <= start < inodes.len(),
        inodes[start].ty != 0,
        is_whole(inodes[start]),
        ty != 0,
        names.len() > 0,
        walk(inodes, start, names) is Err,
        walk(inodes, start, names.drop_last()) == Ok::<int, KernelError>(d),
        ty == 1 ==> inodes[d].nlink < u16::MAX,
        create_spec(inodes, start, names, ty, major, minor, writes).0 == Ok::<int, KernelError>(n),
    ensures
        ({
            let made = create_spec(inodes, start, names, ty, major, minor, writes).1;
            let (r, after) = unlink_spec(made, start, names);
            &&& r is Ok
            &&& after[n].nlink == 0
            &&& after[d].nlink == inodes[d].nlink
            &&& forall|k: int|
                0 <= k < inodes[d].entries.len() && (#[trigger] inodes[d].entries[k]).ino != 0
                    ==> after[d].entries[k] == inodes[d].entries[k]
            &&& forall|k: int|
                0 <= k < after[d].entries.len() && (#[trigger] after[d].entries[k]).ino != 0 ==> k
                    < inodes[d].entries.len() && after[d].entries[k] == inodes[d].entries[k]
            &&& forall|j: int|
                0 <= j < inodes.len() && j != n && j != d ==> #[trigger] after[j] == inodes[j]
        }),
{
    let made = create_spec(inodes, start, names, ty, major, minor, writes).1;
    law_made_as_asked(inodes, start, names, ty, major, minor, writes, d, n);
    law_make_keeps_paths(
        inodes,
        start,
        names,
        ty,
        major,
        minor,
        writes,
        start,
        names.drop_last(),
    );
    lemma_walk_live(inodes, start, names.drop_last());
    lemma_nothing_there(inodes, start, names, d);
    super::ops::law_create_keeps_links(inodes, d, n, names.last(), ty, major, minor);
    assert(names.last() != seq![0x2eu8] && names.last() != seq![0x2eu8, 0x2eu8]) by {
        lemma_new_name(inodes, d, names.last());
    }
    law_remove_succeeds(made, start, names);
    assert(unlink_spec(made, start, names).0 is Ok);
    law_removed(made, start, names, d, n);
    let after = unlink_spec(made, start, names).1;
    let x = inodes[d].entries;
    let y = made[d].entries;
    let z = after[d].entries;
    assert(inode_wf(made, d));
    lemma_same_again(x, y, z, n, names.last());
}

/// An entry that has come and gone again.
proof fn lemma_same_again(x: Seq<Entry>, y: Seq<Entry>, z: Seq<Entry>, ino: int, name: Seq<u8>)
    requires
        gained(x, y, ino, name),
        gained(z, y, ino, name),
        names_differ(y),
        ino != 0,
    ensures
        forall|k: int|
            0 <= k < x.len() && (#[trigger] x[k]).ino != 0 ==> k < z.len() && z[k] == x[k],
        forall|k: int|
            0 <= k < z.len() && (#[trigger] z[k]).ino != 0 ==> k < x.len() && z[k] == x[k],
{
    let a = choose|k: int|
        {
            &&& 0 <= k < y.len()
            &&& (#[trigger] y[k]).ino == ino
            &&& y[k].name == key(name)
            &&& k < x.len() ==> x[k].ino == 0
            &&& forall|j: int|
                0 <= j < y.len() && j != k && (#[trigger] y[j]).ino != 0 ==> j < x.len() && x[j]
                    == y[j]
        };
    let b = choose|k: int|
        {
            &&& 0 <= k < y.len()
            &&& (#[trigger] y[k]).ino == ino
            &&& y[k].name == key(name)
            &&& k < z.len() ==> z[k].ino == 0
            &&& forall|j: int|
                0 <= j < y.len() && j != k && (#[trigger] y[j]).ino != 0 ==> j < z.len() && z[j]
                    == y[j]
        };
    assert(a == b) by {
        if a != b {
            assert(y[a].name != y[b].name);
        }
    }
    assert forall|k: int| 0 <= k < x.len() && (#[trigger] x[k]).ino != 0 implies k < z.len() && z[k]
        == x[k] by {
        assert(y[k] == x[k]);
    }
    assert forall|k: int| 0 <= k < z.len() && (#[trigger] z[k]).ino != 0 implies k < x.len() && z[k]
        == x[k] by {
        assert(y[k] == z[k]);
    }
}

/// An absolute path begins at the root directory, which has number 1, and any other one at
/// the current directory.
pub proof fn law_path_begins(cwd: int)
    ensures
        super::inode::start_of(true, cwd) == 1,
        super::inode::start_of(false, cwd) == cwd,
{
}

} // verus!
