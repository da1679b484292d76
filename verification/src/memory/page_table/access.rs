//! Looking addresses up in a page table, and checking what may be done with them.
use super::super::addr::{VirtAddr, VirtAddrBounds, VirtAddrSpan, VA_MAX};
use super::super::page_manager::PagesView;
use super::super::{level_page_size, level_size, lemma_level_sizes};
use super::entry::PtEntryFlags;
use super::range::lemma_page_region;
use super::tree::{
    entry_wf, lemma_path_to_slot, lemma_put_slot, lemma_put_uses, lemma_put_wf, lemma_slot_region,
    same_region, slot_of_entry, uses_entry, LeafPage, PtEntry, Slot,
};
use super::PageTable;
use crate::error::KernelError;
use vstd::prelude::*;

verus! {

/// The first address that shares the entry at which the walk for `x` ends.
pub open spec fn entry_base(at: Slot, x: nat) -> nat {
    (x - x % level_size(at.level)) as nat
}

/// The page that starts there holds the address, and the next one starts above it.
pub proof fn lemma_entry_base(x: nat, level: nat)
    requires
        level <= 2,
    ensures
        (x - x % level_size(level)) as nat <= x < (x - x % level_size(level)) as nat + level_size(
            level,
        ),
        (x - x % level_size(level)) as nat % level_size(level) == 0,
        level_size(level) >= 4096,
        forall|y: nat|
            #[trigger] same_region(y, x, level) <==> (x - x % level_size(level)) as nat <= y < (x - x
                % level_size(level)) as nat + level_size(level),
{
    lemma_level_sizes();
    super::super::addr::lemma_round(x, level_size(level));
    let base = (x - x % level_size(level)) as nat;
    lemma_page_region(x, base, level);
    assert forall|y: nat| #[trigger] same_region(y, x, level) <==> base <= y < base + level_size(
        level,
    ) by {
        lemma_page_region(y, base, level);
    }
}

impl PageTable {
    /// Whether the tables are in order, wherever the heap lies.
    pub open spec fn shaped(self) -> bool {
        exists|v: PagesView| #[trigger] self.wf(v)
    }

    /// Why an address cannot be used in the way that `flags` says, if it cannot.
    pub open spec fn access_error(self, x: nat, flags: PtEntryFlags) -> Option<KernelError> {
        let at = self.slot_at(x);
        let base = VirtAddr(entry_base(at, x) as u64);
        match at.leaf {
            None => Some(KernelError::VirtualPageNotMapped(base)),
            Some(leaf) => if leaf.flags.effective().has(flags) {
                None
            } else {
                Some(KernelError::InaccessiblePage(base))
            },
        }
    }

    /// Where the walk for an address ends.
    pub(super) fn walk(&self, va: VirtAddr, Ghost(v): Ghost<PagesView>) -> (r: (
        usize,
        Option<LeafPage>,
    ))
        requires
            self.wf(v),
        ensures
            self.slot_at(va.0 as nat) == (Slot { level: r.0 as nat, leaf: r.1 }),
            r.0 <= 2,
    {
        self.0.walk(2, va, Ghost(v))
    }

    /// Replaces the entry at which the walk for an address ends.
    pub(super) fn set_slot(
        &mut self,
        level: usize,
        va: VirtAddr,
        entry: PtEntry,
        Ghost(v): Ghost<PagesView>,
    )
        requires
            old(self).wf(v),
            va.0 <= VA_MAX,
            level == old(self).slot_at(va.0 as nat).level,
            !(entry is Table),
            entry_wf(entry, level as nat, v),
        ensures
            final(self).wf(v),
            final(self).0.pa == old(self).0.pa,
            forall|x: nat|
                x <= VA_MAX ==> #[trigger] final(self).slot_at(x) == (if same_region(
                    x,
                    va.0 as nat,
                    level as nat,
                ) {
                    slot_of_entry(entry, level as nat, x)
                } else {
                    old(self).slot_at(x)
                }),
            forall|p: nat|
                #[trigger] final(self).uses(p) == old(self).uses(p) - leaf_uses(
                    old(self).slot_at(va.0 as nat),
                    p,
                ) + uses_entry(entry, level as nat, p),
            forall|p: nat|
                leaf_uses(old(self).slot_at(va.0 as nat), p) <= #[trigger] old(self).uses(p),
    {
        let ghost s = self.0.entries@;
        let ghost a = va.0 as nat;
        let ghost l = level as nat;
        proof {
            lemma_path_to_slot(s, 2, a, v);
        }
        let ghost e = entry;
        let slot = self.0.entry_mut(2, level, va, Ghost(v));
        *slot = entry;
        proof {
            let t = self.0.entries@;
            lemma_put_wf(s, t, 2, l, a, e, v);
            assert forall|x: nat| x <= VA_MAX implies #[trigger] self.slot_at(x) == (
            if same_region(x, a, l) {
                slot_of_entry(e, l, x)
            } else {
                old(self).slot_at(x)
            }) by {
                lemma_level_sizes();
                assert(same_region(x, a, 3));
                lemma_put_slot(s, t, 2, l, a, e, x, v);
            }
            assert forall|p: nat|
                #[trigger] self.uses(p) == old(self).uses(p) - leaf_uses(
                    old(self).slot_at(a),
                    p,
                ) + uses_entry(e, l, p) by {
                lemma_put_uses(s, t, 2, l, a, e, v, p);
            }
            assert forall|p: nat| leaf_uses(old(self).slot_at(a), p) <= #[trigger] old(self).uses(
                p,
            ) by {
                lemma_put_uses(s, t, 2, l, a, e, v, p);
            }
        }
    }

    /// Returns the level and the page of the leaf page table entry (PTE)
    /// corresponding to the virtual address `va`.
    pub fn find_leaf_entry(&self, va: VirtAddr) -> (r: Result<(usize, LeafPage), KernelError>)
        requires
            self.shaped(),
        ensures
            self.slot_at(va.0 as nat).leaf is None ==> r == Err::<(usize, LeafPage), KernelError>(
                KernelError::VirtualPageNotMapped(va),
            ),
            self.slot_at(va.0 as nat).leaf matches Some(leaf) ==> {
                &&& r matches Ok(found)
                &&& found.0 == self.slot_at(va.0 as nat).level
                &&& found.0 <= 2
                &&& found.1 == leaf
            },
    {
        let ghost v = choose|v: PagesView| #[trigger] self.wf(v);
        match self.walk(va, Ghost(v)) {
            (level, Some(leaf)) => Ok((level, leaf)),
            (_, None) => Err(KernelError::VirtualPageNotMapped(va)),
        }
    }

    /// Validates that all addresses of `va_range` are mapped with the required
    /// `flags`. A page that is copied on the next write counts as writable.
    pub fn validate(&self, va_range: VirtAddrBounds, flags: PtEntryFlags) -> (r: Result<
        (),
        KernelError,
    >)
        requires
            self.shaped(),
            va_range.ordered(),
            va_range.in_bounds(),
        ensures
            r is Ok <==> forall|x: nat|
                va_range.holds(x) ==> #[trigger] self.access_error(x, flags) is None,
            r matches Err(e) ==> exists|x: nat|
                {
                    &&& va_range.holds(x)
                    &&& #[trigger] self.access_error(x, flags) == Some(e)
                    &&& forall|y: nat|
                        va_range.holds(y) && y < x ==> #[trigger] self.access_error(y, flags) is None
                },
    {
        let ghost v = choose|v: PagesView| #[trigger] self.wf(v);
        let span: VirtAddrSpan = match VirtAddr::range_inclusive(va_range) {
            Some(span) => span,
            None => {
                return Ok(());
            },
        };
        let ghost first = span.first.0 as nat;
        let last: u64 = span.last.0;
        let mut cur: u64 = span.first.0;
        while cur <= last
            invariant
                self.wf(v),
                last <= VA_MAX,
                first <= cur,
                cur <= VA_MAX + 0x4000_0000,
                va_range.nonempty(),
                va_range.first() == Some(first),
                va_range.last() == Some(last as nat),
                forall|x: nat| first <= x < cur ==> #[trigger] self.access_error(x, flags) is None,
            decreases VA_MAX + 0x4000_0001 - cur,
        {
            let va: VirtAddr = VirtAddr(cur);
            let (level, leaf) = self.walk(va, Ghost(v));
            let size: u64 = level_page_size(level);
            let ghost base = entry_base(self.slot_at(cur as nat), cur as nat);
            proof {
                lemma_level_sizes();
                lemma_entry_base(cur as nat, level as nat);
                assert(va_range.holds(cur as nat));
                assert(self.access_error(cur as nat, flags) == self.access_error(
                    va.0 as nat,
                    flags,
                ));
            }
            assert(cur % size <= cur) by (nonlinear_arith)
                requires
                    size > 0,
            ;
            let start: u64 = cur - cur % size;
            match leaf {
                None => {
                    return Err(KernelError::VirtualPageNotMapped(VirtAddr(start)));
                },
                Some(leaf) => {
                    if !leaf.flags.effective_flags().contains(flags) {
                        return Err(KernelError::InaccessiblePage(VirtAddr(start)));
                    }
                },
            }
            proof {
                assert forall|x: nat| cur <= x < base + size implies #[trigger] self.access_error(
                    x,
                    flags,
                ) is None by {
                    assert(same_region(x, cur as nat, level as nat));
                    lemma_slot_region(self.0.entries@, 2, cur as nat, x, v);
                }
            }
            cur = start + size;
        }
        Ok(())
    }
}

/// How often the entry at which a walk ends uses a page.
pub open spec fn leaf_uses(at: Slot, p: nat) -> nat {
    match at.leaf {
        Some(leaf) => if leaf.pa.0 == p {
            1
        } else {
            0
        },
        None => 0,
    }
}

} // verus!
