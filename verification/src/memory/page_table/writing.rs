//! Reading and writing memory through a page table.
use super::super::addr::{PhysAddr, VirtAddr, VA_MAX};
use super::super::page_manager::{
    copied, lemma_allocated_wf, lemma_index, lemma_released_wf, Page, PageManager, PagesView,
    ALLOC_FILL,
};
use super::super::{level_page_size, level_size, lemma_level_sizes, PAGE_SIZE};
use super::access::{leaf_uses, lemma_entry_base};
use super::entry::PtEntryFlags;
use super::range::translate;
use super::tree::{
    budget, lemma_path_to_slot, lemma_wf_heap, same_region, uses_entry, LeafPage, PtEntry, Slot,
};
use super::PageTable;
use crate::error::KernelError;
use vstd::prelude::*;

verus! {

/// The account of pages after a page that is shared has been copied for one of
/// its users.
pub open spec fn own_copy(v: PagesView, pa: nat) -> PagesView {
    let taken = v.allocated(1, ALLOC_FILL);
    let filled = PagesView {
        ram: copied(taken.ram, pa - v.ram_base, v.free[0] - v.ram_base, PAGE_SIZE as int),
        ..taken
    };
    filled.released(pa)
}

/// A copy holds what the page held; the page is used once less; nothing else changes.
pub proof fn lemma_own_copy(v: PagesView, pa: nat)
    requires
        v.wf(),
        v.is_page(pa),
        v.count(pa) > 0,
        v.free.len() > 0,
    ensures
        own_copy(v, pa).wf(),
        own_copy(v, pa).same_heap(v),
        v.is_page(v.free[0] as nat),
        v.free[0] != pa,
        own_copy(v, pa).page_bytes(v.free[0] as nat) == v.page_bytes(pa),
        forall|p: nat|
            v.is_page(p) && p != v.free[0] ==> #[trigger] own_copy(v, pa).page_bytes(p)
                == v.page_bytes(p),
        forall|p: nat|
            v.is_page(p) ==> #[trigger] budget(own_copy(v, pa), p) == budget(v, p) + (if p
                == v.free[0] {
                1int
            } else {
                0
            }) - if p == pa {
                1int
            } else {
                0
            },
{
    lemma_allocated_wf(v, 1, ALLOC_FILL);
    let new = v.free[0] as nat;
    let taken = v.allocated(1, ALLOC_FILL);
    let filled = PagesView {
        ram: copied(taken.ram, pa - v.ram_base, v.free[0] - v.ram_base, 4096),
        ..taken
    };
    assert(new != pa);
    lemma_index(v, new, pa);
    assert forall|q: u64| filled.is_page(q as nat) implies (#[trigger] filled.free.contains(q)
        <==> filled.count(q as nat) == 0) by {
        assert(taken.free.contains(q) <==> taken.count(q as nat) == 0);
    }
    assert(filled.wf());
    assert(taken.count(pa) == v.count(pa));
    assert(filled.count(pa) == taken.count(pa));
    lemma_released_wf(filled, pa);
    let w = own_copy(v, pa);
    assert(w == filled.released(pa));
    assert(taken.page_bytes(pa) == v.page_bytes(pa));
    assert(w.page_bytes(new) =~= v.page_bytes(pa)) by {
        assert forall|i: int| 0 <= i < 4096 implies w.page_bytes(new)[i] == v.page_bytes(pa)[i] by {
            assert(w.page_bytes(new)[i] == taken.ram[pa - v.ram_base + i]);
            assert(taken.page_bytes(pa)[i] == taken.ram[pa - v.ram_base + i]);
        }
    }
    assert forall|p: nat| v.is_page(p) && p != new implies #[trigger] w.page_bytes(p)
        == v.page_bytes(p) by {
        lemma_index(v, new, p);
        assert(taken.page_bytes(p) == v.page_bytes(p));
        assert(w.page_bytes(p) =~= taken.page_bytes(p));
    }
    assert forall|p: nat| v.is_page(p) implies #[trigger] budget(w, p) == budget(v, p) + (if p
        == new {
        1int
    } else {
        0
    }) - if p == pa {
        1int
    } else {
        0
    } by {
        if p != new {
            assert(taken.count(p) == v.count(p));
        }
        assert(filled.count(p) == taken.count(p));
        if p != pa {
            assert(filled.released(pa).count(p) == filled.count(p));
        }
    }
}

/// How a request to write to a page ends.
pub enum WriteRequest {
    /// The page can be written to already.
    Writable,
    /// It cannot.
    Refused,
    /// It can, as nobody else uses it.
    Sole,
    /// It is copied first.
    Copied,
    /// There is no memory for the copy.
    NoMemory,
}

/// How a request to write to a page ends.
pub open spec fn write_request(leaf: LeafPage, v: PagesView) -> WriteRequest {
    if leaf.flags.w {
        WriteRequest::Writable
    } else if !leaf.flags.c {
        WriteRequest::Refused
    } else if v.count(leaf.pa.0 as nat) == 1 {
        WriteRequest::Sole
    } else if v.free.len() > 0 {
        WriteRequest::Copied
    } else {
        WriteRequest::NoMemory
    }
}

/// The page that can be written to after the request.
pub open spec fn written_page(leaf: LeafPage, v: PagesView) -> LeafPage {
    match write_request(leaf, v) {
        WriteRequest::Sole => LeafPage { pa: leaf.pa, flags: leaf.flags.owned() },
        WriteRequest::Copied => LeafPage { pa: PhysAddr(v.free[0]), flags: leaf.flags.owned() },
        _ => leaf,
    }
}

/// The account of pages after the request.
pub open spec fn written_pages(leaf: LeafPage, v: PagesView) -> PagesView {
    match write_request(leaf, v) {
        WriteRequest::Copied => own_copy(v, leaf.pa.0 as nat),
        _ => v,
    }
}

/// Whether a page that is to be copied on the next write can be: it is a small
/// page of the heap that is in use.
pub open spec fn copyable(at: Slot, v: PagesView) -> bool {
    at.leaf matches Some(leaf) ==> leaf.flags.c && !leaf.flags.w ==> {
        &&& at.level == 0
        &&& v.is_page(leaf.pa.0 as nat)
        &&& v.count(leaf.pa.0 as nat) > 0
    }
}

/// Whether the memory behind a page is main memory.
pub open spec fn in_ram(leaf: LeafPage, level: nat, v: PagesView) -> bool {
    &&& v.ram_base <= leaf.pa.0
    &&& leaf.pa.0 + level_size(level) <= v.ram_base + v.ram.len()
    &&& leaf.pa.0 + level_size(level) <= u64::MAX + 1
}

/// Whether a request to write to an address has been dealt with.
#[verifier::opaque]
pub open spec fn user_write(
    old_table: PageTable,
    v: PagesView,
    table: PageTable,
    w: PagesView,
    va: VirtAddr,
    r: Result<(), KernelError>,
) -> bool {
    let at = old_table.slot_at(va.0 as nat);
    match at.leaf {
        None => {
            &&& r == Err::<(), KernelError>(KernelError::VirtualPageNotMapped(va))
            &&& table == old_table
            &&& w == v
        },
        Some(leaf) => {
            let page = written_page(leaf, v);
            &&& r == (match write_request(leaf, v) {
                WriteRequest::Refused => Err::<(), KernelError>(KernelError::InaccessiblePage(va)),
                WriteRequest::NoMemory => Err(KernelError::NoFreePage),
                _ => Ok(()),
            })
            &&& w == written_pages(leaf, v)
            &&& forall|x: nat|
                x <= VA_MAX ==> #[trigger] table.slot_at(x) == (if same_region(
                    x,
                    va.0 as nat,
                    at.level,
                ) {
                    Slot { level: at.level, leaf: Some(page) }
                } else {
                    old_table.slot_at(x)
                })
        },
    }
}

impl PageTable {
    /// Makes the page at `va` one that can be written to: if it is to be copied
    /// on the next write, that copy is made, unless nobody else uses the page.
    pub fn request_user_write(&mut self, va: VirtAddr, manager: &mut PageManager) -> (r: Result<
        (),
        KernelError,
    >)
        requires
            old(manager).wf(),
            old(self).wf(old(manager)@),
            va.0 <= VA_MAX,
            copyable(old(self).slot_at(va.0 as nat), old(manager)@),
        ensures
            final(manager).wf(),
            final(self).wf(final(manager)@),
            final(self).0.pa == old(self).0.pa,
            old(self).slot_at(va.0 as nat).leaf is None ==> {
                &&& r == Err::<(), KernelError>(KernelError::VirtualPageNotMapped(va))
                &&& *final(self) == *old(self)
                &&& final(manager)@ == old(manager)@
            },
            old(self).slot_at(va.0 as nat).leaf matches Some(leaf) ==> {
                let level = old(self).slot_at(va.0 as nat).level;
                let page = written_page(leaf, old(manager)@);
                &&& r == (match write_request(leaf, old(manager)@) {
                    WriteRequest::Refused => Err::<(), KernelError>(
                        KernelError::InaccessiblePage(va),
                    ),
                    WriteRequest::NoMemory => Err(KernelError::NoFreePage),
                    _ => Ok(()),
                })
                &&& r is Ok ==> page.flags.w
                &&& final(manager)@ == written_pages(leaf, old(manager)@)
                &&& forall|x: nat|
                    x <= VA_MAX ==> #[trigger] final(self).slot_at(x) == (if same_region(
                        x,
                        va.0 as nat,
                        level,
                    ) {
                        Slot { level, leaf: Some(page) }
                    } else {
                        old(self).slot_at(x)
                    })
                &&& forall|p: nat|
                    old(manager)@.is_page(p) ==> #[trigger] final(self).spare(final(manager)@, p)
                        == old(self).spare(old(manager)@, p)
            },
            user_write(*old(self), old(manager)@, *final(self), final(manager)@, va, r),
    {
        let ghost v = manager@;
        let ghost table = *self;
        let ghost a = va.0 as nat;
        proof {
            reveal(user_write);
            manager.lemma_wf();
            lemma_level_sizes();
            lemma_path_to_slot(self.0.entries@, 2, a, v);
            lemma_entry_base(a, table.slot_at(a).level);
            assert forall|x: nat|
                x <= VA_MAX && same_region(x, a, table.slot_at(a).level) implies #[trigger] table.slot_at(
                x,
            ) == table.slot_at(a) by {
                super::tree::lemma_slot_region(self.0.entries@, 2, a, x, v);
            }
        }
        let (level, leaf) = match self.walk(va, Ghost(v)) {
            (level, Some(leaf)) => (level, leaf),
            (_, None) => {
                return Err(KernelError::VirtualPageNotMapped(va));
            },
        };
        if leaf.flags.w {
            return Ok(());
        }
        if !leaf.flags.c {
            return Err(KernelError::InaccessiblePage(va));
        }
        let owned: PtEntryFlags = leaf.flags.owned_flags();
        let page = Page::from_raw(manager, leaf.pa);
        if page.ref_count(manager) == 1 {
            self.set_slot(level, va, PtEntry::Leaf { pa: leaf.pa, flags: owned }, Ghost(v));
            proof {
                assert forall|p: nat| v.is_page(p) implies #[trigger] self.spare(v, p)
                    == table.spare(v, p) by {
                    assert(leaf_uses(table.slot_at(a), p) == uses_entry(
                        PtEntry::Leaf { pa: leaf.pa, flags: owned },
                        level as nat,
                        p,
                    ));
                    assert(self.uses(p) == table.uses(p));
                }
            }
            return Ok(());
        }
        let new_page: Page = match Page::allocate(manager) {
            Ok(new_page) => new_page,
            Err(e) => {
                return Err(e);
            },
        };
        let pa: PhysAddr = new_page.into_raw();
        proof {
            lemma_allocated_wf(v, 1, ALLOC_FILL);
            lemma_own_copy(v, leaf.pa.0 as nat);
        }
        manager.copy_page(leaf.pa, pa);
        proof {
            let taken = v.allocated(1, ALLOC_FILL);
            assert(taken.count(leaf.pa.0 as nat) == v.count(leaf.pa.0 as nat));
            assert(manager@.count(leaf.pa.0 as nat) == taken.count(leaf.pa.0 as nat));
        }
        page.release(manager);
        let ghost w = manager@;
        proof {
            assert(w == own_copy(v, leaf.pa.0 as nat));
            lemma_wf_heap(self.0.entries@, 2, v, w);
        }
        self.set_slot(level, va, PtEntry::Leaf { pa, flags: owned }, Ghost(w));
        proof {
            assert forall|p: nat| v.is_page(p) implies #[trigger] self.spare(w, p) == table.spare(
                v,
                p,
            ) by {
                assert(self.uses(p) == table.uses(p) - leaf_uses(table.slot_at(a), p) + uses_entry(
                    PtEntry::Leaf { pa, flags: owned },
                    level as nat,
                    p,
                ));
                assert(budget(w, p) == budget(v, p) + (if p == v.free[0] {
                    1int
                } else {
                    0
                }) - if p == leaf.pa.0 {
                    1int
                } else {
                    0
                });
            }
        }
        Ok(())
    }

    /// The memory from `va` on to the end of its page.
    pub fn fetch_chunk<'a>(
        &self,
        va: VirtAddr,
        flags: PtEntryFlags,
        manager: &'a PageManager,
    ) -> (r: Result<&'a [u8], KernelError>)
        requires
            manager.wf(),
            self.wf(manager@),
            self.slot_at(va.0 as nat).leaf matches Some(leaf) ==> leaf.flags.has(flags) ==> in_ram(
                leaf,
                self.slot_at(va.0 as nat).level,
                manager@,
            ),
        ensures
            self.slot_at(va.0 as nat).leaf is None ==> r == Err::<&[u8], KernelError>(
                KernelError::VirtualPageNotMapped(va),
            ),
            self.slot_at(va.0 as nat).leaf matches Some(leaf) ==> if leaf.flags.has(flags) {
                &&& r matches Ok(bytes)
                &&& bytes@ == chunk(self.slot_at(va.0 as nat), va.0 as nat, manager@)
            } else {
                r == Err::<&[u8], KernelError>(KernelError::InaccessiblePage(va))
            },
    {
        let ghost v = manager@;
        let (level, leaf) = match self.walk(va, Ghost(v)) {
            (level, Some(leaf)) => (level, leaf),
            (_, None) => {
                return Err(KernelError::VirtualPageNotMapped(va));
            },
        };
        if !leaf.flags.contains(flags) {
            return Err(KernelError::InaccessiblePage(va));
        }
        let page_size: u64 = level_page_size(level);
        let offset: u64 = va.addr() % page_size;
        proof {
            vstd::arithmetic::div_mod::lemma_mod_bound(va.0 as int, page_size as int);
        }
        Ok(manager.bytes(PhysAddr(leaf.pa.addr() + offset), page_size - offset))
    }

    /// The memory from `va` on to the end of its page, to be written to; a page
    /// that is to be copied on the next write is copied first.
    pub fn fetch_chunk_mut<'a>(
        &mut self,
        va: VirtAddr,
        flags: PtEntryFlags,
        manager: &'a mut PageManager,
    ) -> (r: Result<&'a mut [u8], KernelError>)
        requires
            old(manager).wf(),
            old(self).wf(old(manager)@),
            va.0 <= VA_MAX,
            copyable(old(self).slot_at(va.0 as nat), old(manager)@),
            old(self).slot_at(va.0 as nat).leaf matches Some(leaf) ==> !(leaf.flags.c
                && leaf.flags.w),
            old(self).slot_at(va.0 as nat).leaf matches Some(leaf) ==> leaf.flags.has(flags)
                ==> in_ram(leaf, old(self).slot_at(va.0 as nat).level, old(manager)@),
        ensures
            final(self).0.pa == old(self).0.pa,
            old(self).slot_at(va.0 as nat).leaf is None ==> {
                &&& r matches Err(e)
                &&& e == KernelError::VirtualPageNotMapped(va)
                &&& *final(self) == *old(self)
                &&& final(manager)@ == old(manager)@
            },
            old(self).slot_at(va.0 as nat).leaf matches Some(leaf) ==> {
                let level = old(self).slot_at(va.0 as nat).level;
                let v = old(manager)@;
                let page = written_page_mut(leaf, v);
                let w = if leaf.flags.c {
                    written_pages(leaf, v)
                } else {
                    v
                };
                let at = Slot { level, leaf: Some(page) };
                &&& forall|x: nat|
                    x <= VA_MAX ==> #[trigger] final(self).slot_at(x) == (if same_region(
                        x,
                        va.0 as nat,
                        level,
                    ) {
                        at
                    } else {
                        old(self).slot_at(x)
                    })
                &&& match r {
                    Ok(bytes) => {
                        &&& page.flags.has(flags)
                        &&& !(leaf.flags.c && write_request(leaf, v) is NoMemory)
                        &&& bytes@ == chunk(at, va.0 as nat, w)
                        &&& final(bytes)@.len() == bytes@.len() ==> {
                            &&& final(manager).wf()
                            &&& final(manager)@ == w.written(
                                translate(at, va.0 as nat),
                                final(bytes)@,
                            )
                            &&& final(self).wf(final(manager)@)
                        }
                    },
                    Err(e) => {
                        &&& e == (if leaf.flags.c && write_request(leaf, v) is NoMemory {
                            KernelError::NoFreePage
                        } else {
                            KernelError::InaccessiblePage(va)
                        })
                        &&& !(leaf.flags.c && write_request(leaf, v) is NoMemory)
                            ==> !page.flags.has(flags)
                        &&& final(manager).wf()
                        &&& final(manager)@ == w
                        &&& final(self).wf(final(manager)@)
                    },
                }
            },
    {
        let ghost v = manager@;
        let ghost a = va.0 as nat;
        let ghost table = *self;
        proof {
            manager.lemma_wf();
            lemma_level_sizes();
            lemma_path_to_slot(self.0.entries@, 2, a, v);
            lemma_entry_base(a, table.slot_at(a).level);
            assert forall|x: nat|
                x <= VA_MAX && same_region(x, a, table.slot_at(a).level) implies #[trigger] table.slot_at(
                x,
            ) == table.slot_at(a) by {
                super::tree::lemma_slot_region(self.0.entries@, 2, a, x, v);
            }
        }
        let (level, leaf) = match self.walk(va, Ghost(v)) {
            (level, Some(leaf)) => (level, leaf),
            (_, None) => {
                return Err(KernelError::VirtualPageNotMapped(va));
            },
        };
        let mut page: LeafPage = leaf;
        if leaf.flags.c {
            match self.request_user_write(va, manager) {
                Ok(_) => {},
                Err(e) => {
                    return Err(e);
                },
            }
            assert(same_region(a, a, level as nat));
            let ghost w = manager@;
            page = match self.walk(va, Ghost(w)) {
                (_, Some(leaf)) => leaf,
                (_, None) => leaf,
            };
            proof {
                if v.free.len() > 0 {
                    lemma_own_copy(v, leaf.pa.0 as nat);
                }
            }
        }
        if !page.flags.contains(flags) {
            return Err(KernelError::InaccessiblePage(va));
        }
        let page_size: u64 = level_page_size(level);
        let offset: u64 = va.addr() % page_size;
        proof {
            manager.lemma_wf();
            vstd::arithmetic::div_mod::lemma_mod_bound(va.0 as int, page_size as int);
            super::super::page_manager::lemma_written_wf(
                manager@,
                (page.pa.0 + offset) as nat,
                (page_size - offset) as nat,
            );
            let entries = self.0.entries@;
            let w = manager@;
            assert forall|data: Seq<u8>|
                data.len() == page_size - offset implies super::tree::tree_wf(
                entries,
                2,
                #[trigger] w.written((page.pa.0 + offset) as nat, data),
            ) by {
                lemma_wf_heap(entries, 2, w, w.written((page.pa.0 + offset) as nat, data));
            }
        }
        Ok(manager.bytes_mut(PhysAddr(page.pa.addr() + offset), page_size - offset))
    }
}

/// The page that is written to: a copy, where one is to be made.
pub open spec fn written_page_mut(leaf: LeafPage, v: PagesView) -> LeafPage {
    if leaf.flags.c {
        written_page(leaf, v)
    } else {
        leaf
    }
}

/// The memory from an address on to the end of its page.
pub open spec fn chunk(at: Slot, va: nat, v: PagesView) -> Seq<u8> {
    let start = translate(at, va) - v.ram_base;
    v.ram.subrange(start, start + level_size(at.level) - va % level_size(at.level))
}

/// What is written through a page table is read through it again.
pub proof fn law_read_back(at: Slot, va: nat, v: PagesView, data: Seq<u8>)
    requires
        at.level <= 2,
        at.leaf is Some,
        in_ram(at.leaf->0, at.level, v),
        data.len() == chunk(at, va, v).len(),
    ensures
        chunk(at, va, v.written(translate(at, va), data)) == data,
{
    lemma_level_sizes();
    let size = level_size(at.level);
    assert(size > 0);
    assert(0 <= va % size < size);
    let w = v.written(translate(at, va), data);
    assert(chunk(at, va, w) =~= data);
}

/// A page that is used by more than one table is not changed by what one of them
/// writes after it has asked to: it writes to a copy, which holds what the page held.
/// No other page in use is changed either.
pub proof fn law_shared_page_kept(leaf: LeafPage, v: PagesView, p: nat, from: nat, data: Seq<u8>)
    requires
        v.wf(),
        leaf.flags.c,
        !leaf.flags.w,
        v.is_page(leaf.pa.0 as nat),
        v.count(leaf.pa.0 as nat) > 1,
        v.free.len() > 0,
        v.is_page(p),
        v.count(p) > 0,
        written_page(leaf, v).pa.0 <= from,
        from + data.len() <= written_page(leaf, v).pa.0 + PAGE_SIZE,
    ensures
        written_page(leaf, v).pa.0 != p,
        written_page(leaf, v).flags.w,
        written_pages(leaf, v).page_bytes(written_page(leaf, v).pa.0 as nat) == v.page_bytes(
            leaf.pa.0 as nat,
        ),
        written_pages(leaf, v).written(from, data).page_bytes(p) == v.page_bytes(p),
{
    let w = written_pages(leaf, v);
    let pa = leaf.pa.0 as nat;
    assert(w == own_copy(v, pa));
    lemma_own_copy(v, pa);
    assert(v.free.contains(v.free[0]));
    assert(v.count(v.free[0] as nat) == 0);
    assert(w.page_bytes(p) == v.page_bytes(p));
    lemma_write_elsewhere(w, v.free[0] as nat, p, from, data);
}

/// Writing to one page leaves another one as it is.
proof fn lemma_write_elsewhere(w: PagesView, q: nat, p: nat, from: nat, data: Seq<u8>)
    requires
        w.wf(),
        w.is_page(q),
        w.is_page(p),
        p != q,
        q <= from,
        from + data.len() <= q + 4096,
    ensures
        w.written(from, data).page_bytes(p) == w.page_bytes(p),
{
    lemma_index(w, q, p);
    assert(w.written(from, data).page_bytes(p) =~= w.page_bytes(p));
}

} // verus!
