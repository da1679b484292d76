//! The page table of a process.
use super::addr::{VirtAddr, VirtAddrBounds, VA_MAX};
use super::page_manager::{PageManager, PagesView};
use super::page_table::access::lemma_entry_base;
use super::page_table::entry::PtEntryFlags;
use super::page_table::range::translate;
use super::page_table::tree::{lemma_path_to_slot, lemma_slot_region, same_region};
use super::page_table::writing::{chunk, in_ram};
use super::page_table::PageTable;
use super::{level_size, lemma_level_sizes};
use crate::error::KernelError;
use crate::interrupt::trap::TrapFrame;
use core::ops::Range;
use vstd::prelude::*;

verus! {

/// What a process needs to read an address.
pub open spec fn user_read() -> PtEntryFlags {
    PtEntryFlags {
        v: false,
        r: true,
        w: false,
        x: false,
        u: true,
        g: false,
        a: false,
        d: false,
        c: false,
    }
}

/// What a process needs to write to an address.
pub open spec fn user_write() -> PtEntryFlags {
    PtEntryFlags {
        v: false,
        r: false,
        w: true,
        x: false,
        u: true,
        g: false,
        a: false,
        d: false,
        c: false,
    }
}

/// The page table of a process, with the end of its data.
pub struct UserPageTable {
    pub pt: PageTable,
    /// The size of the memory of the process.
    pub program_break: u64,
    /// The trap frame, which lies in a page of the process.
    pub trapframe: TrapFrame,
}

impl UserPageTable {
    /// Whether all addresses of a range can be used in the way that `flags` says.
    pub open spec fn allows(self, range: Range<VirtAddr>, flags: PtEntryFlags) -> bool {
        forall|x: nat|
            range.start.0 <= x < range.end.0 ==> #[trigger] self.pt.access_error(x, flags) is None
    }

    /// Whether `e` says why the first address of a range that cannot be used in
    /// the way that `flags` says cannot be.
    pub open spec fn refuses(
        self,
        range: Range<VirtAddr>,
        flags: PtEntryFlags,
        e: KernelError,
    ) -> bool {
        exists|x: nat|
            {
                &&& range.start.0 <= x < range.end.0
                &&& #[trigger] self.pt.access_error(x, flags) == Some(e)
                &&& forall|y: nat|
                    range.start.0 <= y < x ==> #[trigger] self.pt.access_error(y, flags) is None
            }
    }

    fn validate_user(&self, va_range: Range<VirtAddr>, flags: PtEntryFlags) -> (r: Result<
        (),
        KernelError,
    >)
        requires
            self.pt.shaped(),
            va_range.start.0 <= va_range.end.0 <= VA_MAX,
        ensures
            r is Ok <==> self.allows(va_range, flags),
            r matches Err(e) ==> self.refuses(va_range, flags, e),
    {
        let bounds = VirtAddrBounds::range(va_range.start, va_range.end);
        let r = self.pt.validate(bounds, flags);
        proof {
            assert forall|x: nat| bounds.holds(x) <==> va_range.start.0 <= x < va_range.end.0 by {}
            if r is Ok {
                assert forall|x: nat|
                    va_range.start.0 <= x < va_range.end.0 implies #[trigger] self.pt.access_error(
                    x,
                    flags,
                ) is None by {
                    assert(bounds.holds(x));
                }
            } else {
                let e = r->Err_0;
                let x = choose|x: nat|
                    {
                        &&& bounds.holds(x)
                        &&& #[trigger] self.pt.access_error(x, flags) == Some(e)
                        &&& forall|y: nat|
                            bounds.holds(y) && y < x ==> #[trigger] self.pt.access_error(y, flags)
                                is None
                    };
                assert forall|y: nat|
                    va_range.start.0 <= y < x implies #[trigger] self.pt.access_error(y, flags)
                        is None by {
                    assert(bounds.holds(y));
                }
                assert(self.pt.access_error(x, flags) is Some);
            }
        }
        r
    }

    /// Checks that the process can read all addresses of the range.
    pub fn validate_user_read(&self, va_range: Range<VirtAddr>) -> (r: Result<(), KernelError>)
        requires
            self.pt.shaped(),
            va_range.start.0 <= va_range.end.0 <= VA_MAX,
        ensures
            r is Ok <==> self.allows(va_range, user_read()),
            r matches Err(e) ==> self.refuses(va_range, user_read(), e),
    {
        self.validate_user(va_range, PtEntryFlags { u: true, r: true, ..PtEntryFlags::empty() })
    }

    /// Checks that the process can write to all addresses of the range.
    pub fn validate_user_write(&self, va_range: Range<VirtAddr>) -> (r: Result<(), KernelError>)
        requires
            self.pt.shaped(),
            va_range.start.0 <= va_range.end.0 <= VA_MAX,
        ensures
            r is Ok <==> self.allows(va_range, user_write()),
            r matches Err(e) ==> self.refuses(va_range, user_write(), e),
    {
        self.validate_user(va_range, PtEntryFlags { u: true, w: true, ..PtEntryFlags::empty() })
    }

    /// The byte that the process finds at an address.
    pub open spec fn byte_at(self, v: PagesView, x: nat) -> u8 {
        v.ram[translate(self.pt.slot_at(x), x) - v.ram_base]
    }

    /// Whether what the process can read from the addresses is main memory.
    pub open spec fn readable(self, v: PagesView, start: nat, end: nat) -> bool {
        forall|x: nat|
            start <= x < end ==> {
                let at = #[trigger] self.pt.slot_at(x);
                &&& at.leaf matches Some(leaf)
                &&& leaf.flags.has(user_read())
                &&& in_ram(leaf, at.level, v)
            }
    }

    /// Copies what the process has at the addresses of a range that has been
    /// checked.
    pub fn copy_u2k_bytes(&self, start: VirtAddr, len: usize, manager: &PageManager) -> (r: Vec<u8>)
        requires
            manager.wf(),
            self.pt.wf(manager@),
            start.0 + len <= VA_MAX,
            self.readable(manager@, start.0 as nat, (start.0 + len) as nat),
        ensures
            r@ == Seq::new(
                len as nat,
                |i: int| self.byte_at(manager@, (start.0 + i) as nat),
            ),
    {
        let ghost v = manager@;
        let mut r: Vec<u8> = Vec::new();
        let flags = PtEntryFlags { u: true, r: true, ..PtEntryFlags::empty() };
        while r.len() < len
            invariant
                manager.wf(),
                self.pt.wf(v),
                v == manager@,
                flags == user_read(),
                r@.len() <= len,
                start.0 + len <= VA_MAX,
                self.readable(v, start.0 as nat, (start.0 + len) as nat),
                forall|i: int|
                    0 <= i < r@.len() ==> #[trigger] r@[i] == self.byte_at(v, (start.0 + i) as nat),
            decreases len - r@.len(),
        {
            let va: VirtAddr = VirtAddr(start.0 + r.len() as u64);
            let ghost a = va.0 as nat;
            let ghost at = self.pt.slot_at(a);
            let ghost done = r@.len() as int;
            proof {
                assert(self.pt.slot_at(a).leaf is Some);
            }
            let bytes: &[u8] = match self.pt.fetch_chunk(va, flags, manager) {
                Ok(bytes) => bytes,
                Err(_) => {
                    return r;
                },
            };
            proof {
                lemma_level_sizes();
                lemma_path_to_slot(self.pt.0.entries@, 2, a, v);
                lemma_entry_base(a, at.level);
                vstd::arithmetic::div_mod::lemma_mod_bound(a as int, level_size(at.level) as int);
            }
            let mut k: usize = 0;
            while k < bytes.len() && r.len() < len
                invariant
                    self.pt.wf(v),
                    k <= bytes@.len(),
                    a == start.0 + done,
                    a <= VA_MAX,
                    r@.len() == done + k,
                    r@.len() <= len,
                    at == self.pt.slot_at(a),
                    at.level <= 2,
                    bytes@ == chunk(at, a, v),
                    in_ram(at.leaf->0, at.level, v),
                    at.leaf is Some,
                    forall|i: int|
                        0 <= i < r@.len() ==> #[trigger] r@[i] == self.byte_at(
                            v,
                            (start.0 + i) as nat,
                        ),
                decreases bytes@.len() - k,
            {
                proof {
                    law_bytes_in_chunk(*self, v, a, k as nat);
                }
                r.push(bytes[k]);
                k = k + 1;
            }
        }
        r
    }
}

/// What is fetched from an address on are the bytes that the process finds at the addresses
/// from there on.
pub proof fn law_bytes_in_chunk(table: UserPageTable, v: PagesView, a: nat, k: nat)
    requires
        table.pt.wf(v),
        a <= VA_MAX,
        ({
            let at = table.pt.slot_at(a);
            &&& at.leaf is Some
            &&& in_ram(at.leaf->0, at.level, v)
            &&& k < chunk(at, a, v).len()
        }),
    ensures
        chunk(table.pt.slot_at(a), a, v)[k as int] == table.byte_at(v, a + k),
{
    let at = table.pt.slot_at(a);
    let size = level_size(at.level);
    lemma_level_sizes();
    lemma_path_to_slot(table.pt.0.entries@, 2, a, v);
    lemma_entry_base(a, at.level);
    vstd::arithmetic::div_mod::lemma_mod_bound(a as int, size as int);
    let base = (a - a % size) as nat;
    assert(chunk(at, a, v).len() == size - a % size);
    assert(same_region(a + k, a, at.level));
    lemma_slot_region(table.pt.0.entries@, 2, a, a + k, v);
    super::page_table::range::lemma_page_region(a + k, base, at.level);
    super::page_table::range::lemma_page_region(a, base, at.level);
    assert((a + k) % size == a % size + k);
}

/// A process may use a range in some way if and only if it may use every address of it so;
/// otherwise the error tells of the first one that it may not.
pub proof fn law_allows(
    table: UserPageTable,
    range: Range<VirtAddr>,
    flags: PtEntryFlags,
    x: nat,
    e: KernelError,
)
    requires
        range.start.0 <= x < range.end.0,
    ensures
        table.allows(range, flags) ==> {
            &&& table.pt.slot_at(x).leaf matches Some(page)
            &&& flags.u ==> page.flags.u
            &&& flags.r ==> page.flags.r
            &&& flags.x ==> page.flags.x
            &&& flags.w ==> page.flags.w || page.flags.c
        },
        table.refuses(range, flags, e) ==> !table.allows(range, flags),
        table.refuses(range, flags, e) && table.pt.access_error(x, flags) is Some && (forall|y: nat|
            range.start.0 <= y < x ==> #[trigger] table.pt.access_error(y, flags) is None)
            ==> table.pt.access_error(x, flags) == Some(e),
{
    if table.allows(range, flags) {
        assert(table.pt.access_error(x, flags) is None);
    }
    if table.refuses(range, flags, e) {
        let z = choose|z: nat|
            {
                &&& range.start.0 <= z < range.end.0
                &&& #[trigger] table.pt.access_error(z, flags) == Some(e)
                &&& forall|y: nat|
                    range.start.0 <= y < z ==> #[trigger] table.pt.access_error(y, flags) is None
            };
        assert(table.pt.access_error(z, flags) is Some);
        if table.pt.access_error(x, flags) is Some && (forall|y: nat|
            range.start.0 <= y < x ==> #[trigger] table.pt.access_error(y, flags) is None) {
            assert(!(z < x));
            assert(!(x < z));
        }
    }
}

} // verus!
