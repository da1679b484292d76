//! Page tables, which map virtual addresses to physical ones.
use super::addr::{lemma_round, PageRound, PhysAddr, VirtAddr, VA_MAX};
use super::page_manager::{
    lemma_allocated_wf, Page, PageManager, PagesView, ALLOC_FILL,
};
use super::{level_page_size, level_size, lemma_level_sizes, PAGE_SIZE};
use crate::error::KernelError;
use entry::PtEntryFlags;
use needs::{
    lemma_grown_join, lemma_missing, lemma_needs_step, lemma_took_join, lemma_took_levels,
    needs_to, took_for, uniform,
};
use range::{
    grown_near, in_large_page, lemma_apart, lemma_join, lemma_large_levels, lemma_large_pieces,
    lemma_map_step, lemma_multiple_aligned, lemma_page_region, lemma_plus_aligned, lemma_step,
    lemma_taken_over, map_level, map_levels, mapped_addrs, mapped_page, mapped_range,
    mapped_result, taken_multiples, taken_over,
};
use tree::{
    budget, lemma_allocated_took, lemma_empty, lemma_path_to_slot, lemma_put_slot, lemma_put_uses,
    lemma_put_wf, lemma_slot_at_path, lemma_took_twice, lemma_wf_heap, missing_tables, same_region,
    slot, took, tree_wf, uses, LeafPage, PageTableEntries, PtEntry, Slot,
};
use riscv::register::satp::{Mode, Satp};
use vstd::prelude::*;

pub mod access;
pub mod cloning;
pub mod cloning_needs;
pub mod dump;
pub mod entry;
pub mod laws;
pub mod needs;
pub mod range;
pub mod sharing;
pub mod tree;
pub mod writing;

verus! {

/// A page table, which manages virtual-to-physical address mappings.
pub struct PageTable(pub Box<PageTableEntries>);

/// What virtual addresses are to be mapped to.
#[derive(Debug, Clone, Copy)]
pub enum MapTarget {
    /// To pages that are allocated for the purpose. Where `allocate_new` is not
    /// set, an address that is mapped already may stay as it is.
    AllocatedAddr { zeroed: bool, allocate_new: bool },
    /// To the physical addresses from `addr` on.
    FixedAddr { addr: PhysAddr },
}

impl MapTarget {
    /// Newly allocated pages, filled with zeros.
    pub fn allocate_new_zeroed() -> (r: Self)
        ensures
            r == (MapTarget::AllocatedAddr { zeroed: true, allocate_new: true }),
    {
        MapTarget::AllocatedAddr { zeroed: true, allocate_new: true }
    }

    /// Allocated pages with the given properties.
    pub fn allocated_addr(zeroed: bool, allocate_new: bool) -> (r: Self)
        ensures
            r == (MapTarget::AllocatedAddr { zeroed, allocate_new }),
    {
        MapTarget::AllocatedAddr { zeroed, allocate_new }
    }

    /// The physical addresses from `addr` on.
    pub fn fixed_addr(addr: PhysAddr) -> (r: Self)
        ensures
            r == (MapTarget::FixedAddr { addr }),
    {
        MapTarget::FixedAddr { addr }
    }

    /// Whether pages of the given level can be mapped to this target.
    pub open spec fn aligned(self, level: nat) -> bool {
        match self {
            MapTarget::AllocatedAddr { .. } => true,
            MapTarget::FixedAddr { addr } => addr.0 as nat % level_size(level) == 0,
        }
    }

    /// Whether the target starts on a page boundary.
    pub fn is_page_aligned(&self) -> (r: bool)
        ensures
            r == self.aligned(0),
    {
        proof {
            lemma_level_sizes();
        }
        match self {
            MapTarget::AllocatedAddr { .. } => true,
            MapTarget::FixedAddr { addr } => addr.is_page_aligned(),
        }
    }

    /// Whether the target starts on a page boundary of the given level.
    pub fn is_level_page_aligned(&self, level: usize) -> (r: bool)
        requires
            level <= 2,
        ensures
            r == self.aligned(level as nat),
    {
        match self {
            MapTarget::AllocatedAddr { .. } => true,
            MapTarget::FixedAddr { addr } => addr.is_level_page_aligned(level),
        }
    }

    /// How far the target is from the page boundary of the given level below it.
    pub fn level_offset(&self, level: usize) -> (r: u64)
        requires
            level <= 2,
        ensures
            r == (match *self {
                MapTarget::AllocatedAddr { .. } => 0,
                MapTarget::FixedAddr { addr } => addr.0 as nat % level_size(level as nat),
            }),
    {
        match self {
            MapTarget::AllocatedAddr { .. } => 0,
            MapTarget::FixedAddr { addr } => addr.addr() % level_page_size(level),
        }
    }

    /// The target `bytes` further up.
    pub open spec fn plus(self, bytes: int) -> Self {
        match self {
            MapTarget::AllocatedAddr { .. } => self,
            MapTarget::FixedAddr { addr } => MapTarget::FixedAddr {
                addr: PhysAddr((addr.0 + bytes) as u64),
            },
        }
    }

    /// Whether there is a target `bytes` further up.
    pub open spec fn has_room(self, bytes: int) -> bool {
        match self {
            MapTarget::AllocatedAddr { .. } => true,
            MapTarget::FixedAddr { addr } => addr.0 + bytes <= u64::MAX,
        }
    }

    /// The target `bytes` further up, if there is one.
    pub fn byte_add(&self, bytes: u64) -> (r: Option<Self>)
        ensures
            r == (if self.has_room(bytes as int) {
                Some(self.plus(bytes as int))
            } else {
                None
            }),
    {
        match self {
            MapTarget::AllocatedAddr { .. } => Some(*self),
            MapTarget::FixedAddr { addr } => match addr.byte_add(bytes) {
                Some(addr) => Some(MapTarget::FixedAddr { addr }),
                None => None,
            },
        }
    }

    /// Whether an address that is mapped already must not be mapped again.
    pub open spec fn is_new(self) -> bool {
        match self {
            MapTarget::AllocatedAddr { allocate_new, .. } => allocate_new,
            MapTarget::FixedAddr { .. } => true,
        }
    }

    /// Whether an address that is mapped already must not be mapped again.
    pub fn allocate_new(&self) -> (r: bool)
        ensures
            r == self.is_new(),
    {
        match self {
            MapTarget::AllocatedAddr { allocate_new, .. } => *allocate_new,
            MapTarget::FixedAddr { .. } => true,
        }
    }

    /// The byte that fills the pages that are allocated.
    pub open spec fn fill(self) -> u8 {
        match self {
            MapTarget::AllocatedAddr { zeroed, .. } if zeroed => 0,
            _ => ALLOC_FILL,
        }
    }

    /// The physical page to map next.
    pub fn get_or_allocate(&self, level: usize, manager: &mut PageManager) -> (r: Result<
        PhysAddr,
        KernelError,
    >)
        requires
            old(manager).wf(),
            self is AllocatedAddr ==> level == 0,
        ensures
            final(manager).wf(),
            *self matches MapTarget::FixedAddr { addr } ==> {
                &&& r == Ok::<PhysAddr, KernelError>(addr)
                &&& final(manager)@ == old(manager)@
            },
            self is AllocatedAddr && old(manager)@.free.len() == 0 ==> {
                &&& r == Err::<PhysAddr, KernelError>(KernelError::NoFreePage)
                &&& final(manager)@ == old(manager)@
            },
            self is AllocatedAddr && old(manager)@.free.len() > 0 ==> {
                &&& r == Ok::<PhysAddr, KernelError>(PhysAddr(old(manager)@.free[0]))
                &&& final(manager)@ == old(manager)@.allocated(1, self.fill())
            },
    {
        match self {
            MapTarget::AllocatedAddr { zeroed, .. } => {
                let page: Result<Page, KernelError> = if *zeroed {
                    Page::alloc_zeroed(manager)
                } else {
                    Page::allocate(manager)
                };
                match page {
                    Ok(page) => Ok(page.into_raw()),
                    Err(e) => Err(e),
                }
            },
            MapTarget::FixedAddr { addr } => Ok(*addr),
        }
    }
}

/// The value of the SATP register for Sv39 mode: the mode, 8, stands in the four
/// highest bits, the page number in the 44 lowest.
pub open spec fn satp_value(ppn: nat) -> nat {
    0x8000_0000_0000_0000 + ppn % 0x1000_0000_0000
}

/// Builds a value for the SATP register with [`Satp::set_mode`] and
/// [`Satp::set_ppn`], starting from zero.
///
/// The mode is put into bits 60 to 63. Of the page number, bits 0 to 43 are
/// put into the same bits, and all others are dropped.
#[verifier::external_body]
fn satp_bits(ppn: u64) -> (r: u64)
    ensures
        r == satp_value(ppn as nat),
{
    let mut satp = Satp::from_bits(0);
    satp.set_mode(Mode::Sv39);
    satp.set_ppn(ppn as usize);
    satp.bits() as u64
}

impl PageTable {
    /// What the table says of an address.
    pub open spec fn slot_at(self, va: nat) -> Slot {
        slot(self.0.entries@, 2, va)
    }

    /// How often the table uses a page.
    pub open spec fn uses(self, pa: nat) -> nat {
        uses(self.0.entries@, 2, 512, pa) + if self.0.pa.0 == pa {
            1nat
        } else {
            0
        }
    }

    /// The tables are in order and stand in pages of the heap.
    pub open spec fn wf(self, v: PagesView) -> bool {
        &&& tree_wf(self.0.entries@, 2, v)
        &&& v.is_page(self.0.pa.0 as nat)
    }

    /// How often a page is counted as used beyond the uses by this table.
    pub open spec fn spare(self, v: PagesView, pa: nat) -> int {
        budget(v, pa) - self.uses(pa)
    }

    /// Attempts to allocate a new page table, which maps nothing.
    pub fn try_allocate(manager: &mut PageManager) -> (r: Result<Self, KernelError>)
        requires
            old(manager).wf(),
        ensures
            final(manager).wf(),
            old(manager)@.free.len() == 0 ==> {
                &&& r == Err::<Self, KernelError>(KernelError::NoFreePage)
                &&& final(manager)@ == old(manager)@
            },
            old(manager)@.free.len() > 0 ==> {
                &&& r matches Ok(table)
                &&& table.wf(final(manager)@)
                &&& table.0.pa == PhysAddr(old(manager)@.free[0])
                &&& final(manager)@ == old(manager)@.allocated(u32::MAX, 0)
                &&& forall|x: nat| (#[trigger] table.slot_at(x)).leaf is None
                &&& forall|p: nat|
                    #[trigger] table.uses(p) == (if p == table.0.pa.0 {
                        1nat
                    } else {
                        0
                    })
            },
    {
        let ghost v = manager@;
        proof {
            manager.lemma_wf();
        }
        match PageTableEntries::try_allocate(manager) {
            Ok(table) => {
                proof {
                    lemma_allocated_wf(v, u32::MAX, 0);
                    assert forall|x: nat| (#[trigger] slot(table.entries@, 2, x)).leaf is None by {
                        lemma_empty(table.entries@, 2, 512, x, 0);
                    }
                    assert forall|p: nat| #[trigger] uses(table.entries@, 2, 512, p) == 0 by {
                        lemma_empty(table.entries@, 2, 512, 0, p);
                    }
                }
                Ok(PageTable(table))
            },
            Err(e) => Err(e),
        }
    }

    /// The value for the SATP (Supervisor Address Translation and Protection)
    /// register that makes the machine translate addresses by this page table, in
    /// Sv39 mode.
    pub fn satp(&self) -> (r: u64)
        ensures
            r == satp_value((self.0.pa.0 / PAGE_SIZE) as nat),
    {
        satp_bits(self.0.pa.phys_page_num().value())
    }

    /// Creates PTE for virtual page `va` that refers to the next page of `pa`.
    pub fn map_page(
        &mut self,
        level: usize,
        va: VirtAddr,
        pa: MapTarget,
        perm: PtEntryFlags,
        manager: &mut PageManager,
    ) -> (r: Result<(), KernelError>)
        requires
            old(manager).wf(),
            old(self).wf(old(manager)@),
            level <= 2,
            va.0 <= VA_MAX,
            perm.accessible(),
            pa.aligned(level as nat),
            pa.aligned(0),
            pa is AllocatedAddr ==> level == 0,
            old(self).slot_at(va.0 as nat).leaf is Some ==> old(self).slot_at(va.0 as nat).level
                <= level && !pa.is_new(),
            old(self).slot_at(va.0 as nat).leaf is None ==> old(self).slot_at(va.0 as nat).level
                >= level,
        ensures
            final(manager).wf(),
            final(self).wf(final(manager)@),
            final(self).0.pa == old(self).0.pa,
            mapped_page(
                *old(self),
                old(manager)@,
                *final(self),
                final(manager)@,
                level as nat,
                va,
                pa,
                perm,
                r,
            ),
    {
        let ghost s = self.0.entries@;
        let ghost v = manager@;
        let ghost a = va.0 as nat;
        let ghost l = level as nat;
        proof {
            manager.lemma_wf();
            lemma_level_sizes();
            lemma_path_to_slot(s, 2, a, v);
        }
        let created = self.0.create_tables(2, level, va, manager);
        let ghost s1 = self.0.entries@;
        let ghost v1 = manager@;
        proof {
            manager.lemma_wf();
            assert forall|p: nat| v.is_page(p) implies #[trigger] self.spare(v1, p) == old(
                self,
            ).spare(v, p) by {
                assert(budget(v1, p) - uses(s1, 2, 512, p) == budget(v, p) - uses(s, 2, 512, p));
            }
        }
        assert forall|x: nat| x <= VA_MAX implies #[trigger] same_region(x, a, 3) by {}
        match created {
            Ok(_) => {},
            Err(e) => {
                return Err(e);
            },
        }
        proof {
            lemma_slot_at_path(s1, 2, l, a, v1);
        }
        let present: Option<PtEntryFlags> = match self.0.entry(2, level, va, Ghost(v1)) {
            PtEntry::Invalid => None,
            PtEntry::Leaf { flags, .. } => Some(flags.intersection_urwx()),
            PtEntry::Table { .. } => Some(PtEntryFlags::empty()),
        };
        match present {
            Some(pte_perm) => {
                if perm != pte_perm {
                    return Err(
                        KernelError::VirtualAddressWithUnexpectedPerm(va, perm, pte_perm),
                    );
                }
                return Ok(());
            },
            None => {},
        }
        let page: PhysAddr = match pa.get_or_allocate(level, manager) {
            Ok(page) => page,
            Err(e) => {
                return Err(e);
            },
        };
        let ghost v2 = manager@;
        let ghost e = PtEntry::Leaf { pa: page, flags: perm.valid() };
        proof {
            manager.lemma_wf();
            if pa is AllocatedAddr {
                lemma_allocated_wf(v1, 1, pa.fill());
                lemma_allocated_took(v1, 1, pa.fill());
                lemma_took_twice(v, v1, v2, missing_tables(old(self).slot_at(a), l), 1);
                assert(v2.page_bytes(page.0 as nat) =~= Seq::new(4096, |i: int| pa.fill()));
            }
            lemma_wf_heap(s1, 2, v1, v2);
        }
        let pte = self.0.entry_mut(2, level, va, Ghost(v2));
        *pte = PtEntry::Leaf { pa: page, flags: perm.with_valid() };
        proof {
            let t = self.0.entries@;
            lemma_put_wf(s1, t, 2, l, a, e, v2);
            assert forall|x: nat| x <= VA_MAX implies {
                &&& same_region(x, a, l) ==> (#[trigger] self.slot_at(x)) == (Slot {
                    level: l,
                    leaf: Some(LeafPage { pa: page, flags: perm.valid() }),
                })
                &&& !same_region(x, a, l) ==> self.slot_at(x) == slot(s1, 2, x)
            } by {
                lemma_put_slot(s1, t, 2, l, a, e, x, v2);
            }
            assert forall|p: nat| v.is_page(p) implies #[trigger] self.spare(v2, p) == old(
                self,
            ).spare(v, p) - if pa is FixedAddr && page.0 == p {
                1int
            } else {
                0
            } by {
                lemma_put_uses(s1, t, 2, l, a, e, v2, p);
                assert(budget(v1, p) - uses(s1, 2, 512, p) == budget(v, p) - uses(s, 2, 512, p));
            }
        }
        Ok(())
    }

    /// Creates PTEs of one level for the `size` bytes from `va` on, and moves `va`
    /// and `pa` past what has been mapped.
    pub fn map_addrs_level(
        &mut self,
        level: usize,
        va: &mut VirtAddr,
        pa: &mut MapTarget,
        size: u64,
        perm: PtEntryFlags,
        manager: &mut PageManager,
    ) -> (r: Result<(), KernelError>)
        requires
            old(manager).wf(),
            old(self).wf(old(manager)@),
            level <= 2,
            old(va).0 <= VA_MAX,
            old(va).0 as nat % level_size(level as nat) == 0,
            old(pa).aligned(level as nat),
            size as nat % level_size(level as nat) == 0,
            perm.accessible(),
            *old(pa) is AllocatedAddr ==> level == 0,
            old(va).0 + size <= VA_MAX ==> old(pa).has_room(size as int) && old(self).can_map(
                old(va).0 as nat,
                (old(va).0 + size) as nat,
                *old(pa),
                level as nat,
            ),
        ensures
            final(manager).wf(),
            final(self).wf(final(manager)@),
            final(self).0.pa == old(self).0.pa,
            old(va).byte_add_spec(size) matches Err(e) ==> {
                &&& r == Err::<(), KernelError>(e)
                &&& *final(self) == *old(self)
                &&& final(manager)@ == old(manager)@
                &&& *final(va) == *old(va)
                &&& *final(pa) == *old(pa)
            },
            old(va).byte_add_spec(size) is Ok ==> {
                let done = final(va).0 - old(va).0;
                &&& 0 <= done <= size
                &&& *final(pa) == old(pa).plus(done)
                &&& final(va).0 as nat % level_size(level as nat) == 0
                &&& mapped_range(
                    *old(self),
                    old(manager)@,
                    *final(self),
                    final(manager)@,
                    old(va).0 as nat,
                    final(va).0 as nat,
                    *old(pa),
                    perm,
                    level as nat,
                )
                &&& grown_near(
                    *old(self),
                    *final(self),
                    old(va).0 as nat,
                    if r is Ok {
                        final(va).0 as nat
                    } else {
                        (final(va).0 + 1) as nat
                    },
                    level as nat,
                )
                &&& mapped_result(
                    *old(self),
                    old(manager)@,
                    final(manager)@,
                    final(va).0 as nat,
                    (old(va).0 + size) as nat,
                    perm,
                    r,
                )
                &&& took_for(
                    *old(self),
                    old(manager)@,
                    final(manager)@,
                    old(va).0 as nat,
                    final(va).0 as nat,
                    uniform(level as nat),
                    *old(pa) is AllocatedAddr,
                    r,
                )
                &&& forall|x: nat|
                    old(va).0 <= x < final(va).0 && old(self).slot_at(x).leaf is None ==> (
                    #[trigger] final(self).slot_at(x)).level == level
                &&& forall|p: nat|
                    old(manager)@.is_page(p) ==> #[trigger] final(self).spare(final(manager)@, p)
                        == old(self).spare(old(manager)@, p) - taken_over(
                        *final(self),
                        old(va).0 as nat,
                        final(va).0 as nat,
                        *old(pa),
                        p,
                    )
            },
    {
        let page_size: u64 = level_page_size(level);
        let ghost ps = page_size as nat;
        let ghost l = level as nat;
        let ghost start = va.0 as nat;
        let ghost target = *pa;
        let ghost v = manager@;
        let ghost table = *self;
        proof {
            lemma_level_sizes();
            manager.lemma_wf();
        }
        let va_end: VirtAddr = match va.byte_add(size) {
            Ok(end) => end,
            Err(e) => {
                return Err(e);
            },
        };
        let ghost mut k: nat = 0;
        let ghost mut n: nat = 0;
        let ghost total = size as nat / ps;
        proof {
            vstd::arithmetic::div_mod::lemma_fundamental_div_mod(size as int, ps as int);
            assert(ps * total == total * ps) by (nonlinear_arith);
            assert(v.free.skip(0) =~= v.free);
            assert(0 * ps == 0) by (nonlinear_arith);
        }
        while va.0 < va_end.0
            invariant
                manager.wf(),
                self.wf(manager@),
                table == *old(self),
                v == old(manager)@,
                start == old(va).0,
                target == *old(pa),
                table.wf(v),
                v.wf(),
                self.0.pa == table.0.pa,
                level <= 2,
                l == level,
                ps == page_size,
                ps == level_size(l),
                ps > 0,
                ps % 4096 == 0,
                perm.accessible(),
                start <= va.0 <= va_end.0 <= VA_MAX,
                va_end.0 == start + size,
                start % ps == 0,
                va.0 == start + k * ps,
                size == total * ps,
                total == size as nat / ps,
                n == needs_to(table, start, va.0 as nat, uniform(l), target is AllocatedAddr),
                target.aligned(l),
                target.has_room(size as int),
                target is AllocatedAddr ==> level == 0,
                *pa == target.plus(va.0 - start),
                table.can_map(start, va_end.0 as nat, target, l),
                took(v, manager@, n),
                mapped_range(table, v, *self, manager@, start, va.0 as nat, target, perm, l),
                grown_near(table, *self, start, va.0 as nat, l),
                forall|x: nat|
                    start <= x < va.0 && table.slot_at(x).leaf is None ==> (
                    #[trigger] self.slot_at(x)).level == level,
                forall|p: nat|
                    v.is_page(p) ==> #[trigger] self.spare(manager@, p) == table.spare(v, p)
                        - taken_multiples(start, va.0 as nat, target, l, p),
            decreases va_end.0 - va.0,
        {
            let ghost before = *self;
            let ghost w = manager@;
            let ghost cur = va.0 as nat;
            proof {
                manager.lemma_wf();
                lemma_step(k, ps, total, start, size as nat);
                lemma_multiple_aligned(start, k, ps);
                lemma_plus_aligned(target, k, l);
                lemma_level_sizes();
                lemma_wf_heap(table.0.entries@, 2, v, w);
                assert(before.slot_at(cur).leaf == table.slot_at(cur).leaf);
            }
            let result = self.map_page(level, *va, *pa, perm, manager);
            proof {
                manager.lemma_wf();
                let here = before.slot_at(cur);
                let tables = missing_tables(here, l);
                let pages: nat = if here.leaf is None && target is AllocatedAddr {
                    1
                } else {
                    0
                };
                lemma_path_to_slot(before.0.entries@, 2, cur, w);
                let m: nat = if w.free.len() < tables + pages {
                    w.free.len()
                } else {
                    tables + pages
                };
                lemma_took_twice(v, w, manager@, n, m);
                lemma_missing(table, v, before, w, start, cur, va_end.0 as nat, target, perm, l);
                lemma_needs_step(
                    table,
                    start,
                    cur,
                    l,
                    uniform(l),
                    target is AllocatedAddr,
                );
                n = n + m;
                lemma_map_step(
                    table,
                    v,
                    before,
                    w,
                    *self,
                    manager@,
                    start,
                    *va,
                    va_end.0 as nat,
                    target,
                    perm,
                    l,
                    (n - m) as nat,
                    result,
                );
                if result is Err {
                    lemma_taken_over(table, v, *self, manager@, start, cur, target, perm, l);
                    assert(k < total);
                    if result != Err::<(), KernelError>(KernelError::NoFreePage) {
                        assert(m == 0);
                    }
                }
            }
            match result {
                Ok(_) => {},
                Err(e) => {
                    return Err(e);
                },
            }
            *va = VirtAddr(va.0 + page_size);
            proof {
                k = k + 1;
            }
            *pa = match pa.byte_add(page_size) {
                Some(next) => next,
                None => *pa,
            };
        }
        proof {
            assert(k == total) by (nonlinear_arith)
                requires
                    k * ps == total * ps,
                    ps > 0,
            ;
            lemma_taken_over(table, v, *self, manager@, start, va.0 as nat, target, perm, l);
            lemma_multiple_aligned(start, k, ps);
        }
        Ok(())
    }

    /// Creates PTEs for the `size` bytes from `va` on that refer to the physical
    /// addresses that `pa` gives. Where these are fixed, large pages are used as
    /// far as both addresses allow for it.
    ///
    /// If an error occurs, the addresses up to the one at fault stay mapped.
    #[verifier::rlimit(100)]
    #[verifier::spinoff_prover]
    pub fn map_addrs(
        &mut self,
        va: VirtAddr,
        pa: MapTarget,
        size: u64,
        perm: PtEntryFlags,
        manager: &mut PageManager,
    ) -> (r: Result<(), KernelError>)
        requires
            old(manager).wf(),
            old(self).wf(old(manager)@),
            va.0 <= VA_MAX,
            va.0 % PAGE_SIZE == 0,
            pa.aligned(0),
            size % PAGE_SIZE == 0,
            perm.accessible(),
            va.0 + size <= VA_MAX ==> pa.has_room(size as int) && old(self).can_map_all(
                va.0 as nat,
                (va.0 + size) as nat,
                pa,
            ),
        ensures
            final(manager).wf(),
            final(self).wf(final(manager)@),
            final(self).0.pa == old(self).0.pa,
            va.byte_add_spec(size) matches Err(e) ==> {
                &&& r == Err::<(), KernelError>(e)
                &&& *final(self) == *old(self)
                &&& final(manager)@ == old(manager)@
            },
            va.byte_add_spec(size) is Ok ==> exists|reached: nat| #[trigger]
                mapped_addrs(
                    *old(self),
                    old(manager)@,
                    *final(self),
                    final(manager)@,
                    va.0 as nat,
                    (va.0 + size) as nat,
                    pa,
                    perm,
                    reached,
                    r,
                ),
    {
        let ghost start = va.0 as nat;
        let ghost t0 = *self;
        let ghost v0 = manager@;
        let ghost end = (va.0 + size) as nat;
        let ghost target = pa;
        let ghost levels = map_levels(start, end, pa);
        proof {
            lemma_level_sizes();
            manager.lemma_wf();
        }
        let mut va: VirtAddr = va;
        let mut pa: MapTarget = pa;
        let va_end: VirtAddr = match va.byte_add(size) {
            Ok(end) => end,
            Err(e) => {
                return Err(e);
            },
        };
        let fixed: bool = match pa {
            MapTarget::AllocatedAddr { .. } => false,
            MapTarget::FixedAddr { .. } => true,
        };
        let large: bool = fixed && va.addr() % level_page_size(1) == pa.level_offset(1);
        proof {
            lemma_round(start, 0x20_0000);
            lemma_round(end, 0x20_0000);
        }
        let lv1_start_va: VirtAddr = va.level_page_roundup(1);
        let lv1_end_va: VirtAddr = va_end.level_page_rounddown(1);
        if !large || lv1_start_va.addr() >= lv1_end_va.addr() {
            // large pages cannot be allocated, or do not fit
            let r = self.map_addrs_level(0, &mut va, &mut pa, size, perm, manager);
            proof {
                lemma_took_levels(
                    t0,
                    v0,
                    manager@,
                    start,
                    va.0 as nat,
                    uniform(0),
                    levels,
                    target is AllocatedAddr,
                    r,
                );
                assert(mapped_addrs(t0, v0, *self, manager@, start, end, target, perm, va.0 as nat, r));
            }
            return r;
        }
        let ghost a = lv1_start_va.0 as nat;
        let ghost b = lv1_end_va.0 as nat;
        proof {
            lemma_large_pieces(start, end, a, b, target);
            assert(forall|x: nat|
                start <= x < end ==> (#[trigger] t0.slot_at(x)).leaf is None);
            assert(v0.free.skip(0) =~= v0.free);
            assert(took(v0, v0, 0));
            assert(needs_to(t0, start, start, levels, false) == 0);
        }
        if va.addr() < lv1_start_va.addr() {
            let size: u64 = lv1_start_va.addr() - va.addr();
            let r = self.map_addrs_level(0, &mut va, &mut pa, size, perm, manager);
            proof {
                lemma_took_levels(
                    t0,
                    v0,
                    manager@,
                    start,
                    va.0 as nat,
                    uniform(0),
                    levels,
                    false,
                    r,
                );
                if r is Err {
                    assert(mapped_addrs(t0, v0, *self, manager@, start, end, target, perm, va.0 as nat, r));
                }
            }
            match r {
                Ok(_) => {},
                Err(e) => {
                    return Err(e);
                },
            }
        }
        let ghost t1 = *self;
        let ghost v1 = manager@;
        let ghost d1 = (a - start) as nat;
        proof {
            manager.lemma_wf();
            assert(va.0 == a);
            assert(pa == target.plus(d1 as int));
            assert(took(v0, v1, needs_to(t0, start, a, levels, false)));
            assert(start < a ==> t1.slot_at((a - 1) as nat).level == 0) by {
                assert(t0.slot_at((a - 1) as nat).leaf is None || start == a);
            }
            assert forall|x: nat| a <= x < b implies {
                let at = #[trigger] t1.slot_at(x);
                at.leaf is None && at.level >= 1
            } by {
                let before = t0.slot_at(x);
                assert(before.leaf is None && before.level >= 1) by {
                    assert(in_large_page(start, end, target, x));
                }
                if t1.slot_at(x) != before && t1.slot_at(x).level == 0 {
                    let y = choose|y: nat| start <= y < a && #[trigger] same_region(x, y, 1);
                    lemma_page_region(x, a, 1);
                    lemma_apart(x, y, a);
                }
            }
        }
        {
            let size: u64 = lv1_end_va.addr() - va.addr();
            let r = self.map_addrs_level(1, &mut va, &mut pa, size, perm, manager);
            proof {
                lemma_join(t0, v0, t1, v1, *self, manager@, start, a, va.0 as nat, target, perm, 0, 1);
                lemma_large_levels(start, end, target, a, b);
                lemma_took_join(
                    t0,
                    v0,
                    t1,
                    v1,
                    manager@,
                    start,
                    a,
                    va.0 as nat,
                    1,
                    levels,
                    r,
                );
                if r is Ok {
                    lemma_grown_join(
                        t0,
                        t1,
                        v1,
                        *self,
                        manager@,
                        start,
                        a,
                        b,
                        target.plus(d1 as int),
                        perm,
                        1,
                    );
                }
                if r is Err {
                    assert(t1.slot_at(va.0 as nat).leaf == t0.slot_at(va.0 as nat).leaf);
                    assert(mapped_addrs(t0, v0, *self, manager@, start, end, target, perm, va.0 as nat, r));
                }
            }
            match r {
                Ok(_) => {},
                Err(e) => {
                    return Err(e);
                },
            }
        }
        let ghost t2 = *self;
        let ghost v2 = manager@;
        proof {
            manager.lemma_wf();
            assert(va.0 == b);
            assert(pa == target.plus(b - start));
        }
        if va.addr() < va_end.addr() {
            let size: u64 = va_end.addr() - va.addr();
            assert forall|x: nat| b <= x < end implies (#[trigger] t2.slot_at(x)).leaf is None by {
                assert(t0.slot_at(x).leaf is None);
            }
            let r = self.map_addrs_level(0, &mut va, &mut pa, size, perm, manager);
            proof {
                lemma_join(t0, v0, t2, v2, *self, manager@, start, b, va.0 as nat, target, perm, 0, 0);
                lemma_large_levels(start, end, target, a, b);
                assert(t2.slot_at((b - 1) as nat).level == 1) by {
                    assert(t1.slot_at((b - 1) as nat).leaf is None);
                }
                lemma_took_join(
                    t0,
                    v0,
                    t2,
                    v2,
                    manager@,
                    start,
                    b,
                    va.0 as nat,
                    0,
                    levels,
                    r,
                );
                if r is Err {
                    assert(t2.slot_at(va.0 as nat).leaf == t0.slot_at(va.0 as nat).leaf);
                }
                assert(mapped_addrs(t0, v0, *self, manager@, start, end, target, perm, va.0 as nat, r));
            }
            return r;
        }
        proof {
            assert(mapped_addrs(t0, v0, *self, manager@, start, end, target, perm, end, Ok(())));
        }
        Ok(())
    }

    /// Whether mapping the addresses from `start` to `end` runs into neither a
    /// larger page nor, where it must not, a page or a table that is there already.
    pub open spec fn can_map_all(self, start: nat, end: nat, pa: MapTarget) -> bool {
        forall|x: nat|
            start <= x < end ==> {
                let at = #[trigger] self.slot_at(x);
                let level = map_level(start, end, pa, x);
                &&& at.leaf is Some ==> at.level <= level && !pa.is_new()
                &&& at.leaf is None ==> at.level >= level
            }
    }

    /// Whether mapping the addresses from `start` to `end` with pages of level
    /// `level` runs into neither a larger page nor, where it must not, a page or a
    /// table that is there already.
    pub open spec fn can_map(self, start: nat, end: nat, pa: MapTarget, level: nat) -> bool {
        forall|x: nat|
            start <= x < end && end <= VA_MAX ==> {
                let at = #[trigger] self.slot_at(x);
                &&& at.leaf is Some ==> at.level <= level && !pa.is_new()
                &&& at.leaf is None ==> at.level >= level
            }
    }
}

} // verus!
