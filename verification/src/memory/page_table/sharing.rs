//! Giving pages back, sharing them, and copying those that are shared.
use super::super::addr::{PhysAddr, VirtAddr, VirtAddrBounds, VirtAddrSpan, VA_MAX};
use super::super::page_manager::{lemma_released_wf, Page, PageManager, PagesView};
use super::super::{level_page_size, level_size, lemma_level_sizes};
use super::access::{entry_base, leaf_uses, lemma_entry_base};
use super::tree::{
    budget, entry_wf, lemma_path_to_slot, lemma_slot_region, lemma_uses_entry, lemma_wf_heap,
    same_region, tree_wf, uses, uses_entry, PageTableEntries, PtEntry, Slot,
};
use super::PageTable;
use crate::error::KernelError;
use vstd::prelude::*;

verus! {

/// Gives one use of a page back, if it is one of the heap.
fn release_page(pa: PhysAddr, manager: &mut PageManager)
    requires
        old(manager).wf(),
        pa.0 % 4096 == 0,
        old(manager)@.is_page(pa.0 as nat) ==> old(manager)@.count(pa.0 as nat) > 0,
    ensures
        final(manager).wf(),
        final(manager)@.same_heap(old(manager)@),
        final(manager)@.ram == old(manager)@.ram,
        forall|p: nat|
            old(manager)@.is_page(p) ==> #[trigger] budget(final(manager)@, p) == budget(
                old(manager)@,
                p,
            ) - if p == pa.0 {
                1int
            } else {
                0
            },
        final(manager)@ == (if old(manager)@.is_page(pa.0 as nat) {
            old(manager)@.released(pa.0 as nat)
        } else {
            old(manager)@
        }),
{
    let ghost v = manager@;
    proof {
        manager.lemma_wf();
    }
    if pa.addr() != 0 && manager.is_heap_addr(pa) {
        proof {
            lemma_released_wf(v, pa.0 as nat);
        }
        let page = Page::from_raw(manager, pa);
        page.release(manager);
    }
}

/// Gives back all pages that a table of level `level` uses, its own among them.
fn free_tree(table: Box<PageTableEntries>, level: usize, manager: &mut PageManager)
    requires
        old(manager).wf(),
        level <= 2,
        tree_wf(table.entries@, level as nat, old(manager)@),
        old(manager)@.is_page(table.pa.0 as nat),
        forall|p: nat|
            old(manager)@.is_page(p) ==> uses_entry(
                PtEntry::Table { table },
                level as nat + 1,
                p,
            ) <= #[trigger] budget(old(manager)@, p),
    ensures
        final(manager).wf(),
        final(manager)@.same_heap(old(manager)@),
        final(manager)@.ram == old(manager)@.ram,
        forall|p: nat|
            old(manager)@.is_page(p) ==> #[trigger] budget(final(manager)@, p) == budget(
                old(manager)@,
                p,
            ) - uses_entry(PtEntry::Table { table }, level as nat + 1, p),
    decreases level,
{
    let ghost l = level as nat;
    let ghost all = table.entries@;
    let ghost v = manager@;
    let pa: PhysAddr = table.pa;
    let mut entries: Vec<PtEntry> = table.entries;
    proof {
        manager.lemma_wf();
        assert forall|p: nat| #[trigger] uses_entry(PtEntry::Table { table }, l + 1, p) == uses(
            all,
            l,
            512,
            p,
        ) + if pa.0 == p {
            1nat
        } else {
            0
        } by {}
    }
    while entries.len() > 0
        invariant
            manager.wf(),
            manager@.same_heap(v),
            manager@.ram == v.ram,
            level <= 2,
            l == level,
            v.is_page(pa.0 as nat),
            tree_wf(all, l, v),
            all.len() == 512,
            entries@.len() <= 512,
            entries@ == all.take(entries@.len() as int),
            forall|p: nat|
                v.is_page(p) ==> uses(all, l, 512, p) + (if pa.0 == p {
                    1nat
                } else {
                    0
                }) <= #[trigger] budget(v, p),
            forall|p: nat|
                v.is_page(p) ==> #[trigger] budget(manager@, p) - uses(
                    all,
                    l,
                    entries@.len(),
                    p,
                ) == budget(v, p) - uses(all, l, 512, p),
        decreases entries@.len(),
    {
        let ghost n = entries@.len();
        let ghost w = manager@;
        proof {
            manager.lemma_wf();
            lemma_wf_heap(all, l, v, w);
            assert(entry_wf(all[n - 1], l, w));
            assert forall|p: nat| v.is_page(p) implies {
                &&& #[trigger] budget(w, p) >= uses_entry(all[n - 1], l, p)
                &&& uses(all, l, n, p) == uses(all, l, (n - 1) as nat, p) + uses_entry(
                    all[n - 1],
                    l,
                    p,
                )
            } by {
                lemma_uses_entry(all, l, n, n - 1, p);
                assert(budget(v, p) >= uses(all, l, 512, p));
            }
        }
        match entries.pop() {
            Some(PtEntry::Leaf { pa: leaf, .. }) => {
                proof {
                    assert(budget(w, leaf.0 as nat) >= uses_entry(all[n - 1], l, leaf.0 as nat)
                        || !w.is_page(leaf.0 as nat));
                }
                release_page(leaf, manager);
            },
            Some(PtEntry::Table { table }) => {
                assert(table == all[n - 1]->table);
                free_tree(table, level - 1, manager);
            },
            _ => {},
        }
        proof {
            assert(entries@ =~= all.take(n - 1));
            let w2 = manager@;
            assert forall|p: nat| v.is_page(p) implies #[trigger] budget(w2, p) - uses(
                all,
                l,
                (n - 1) as nat,
                p,
            ) == budget(v, p) - uses(all, l, 512, p) by {
                assert(w.is_page(p));
                assert(budget(w, p) >= uses_entry(all[n - 1], l, p));
            }
        }
    }
    proof {
        manager.lemma_wf();
        assert(budget(v, pa.0 as nat) >= 1);
        assert(uses(all, l, 0, pa.0 as nat) == 0);
        assert(budget(manager@, pa.0 as nat) >= 1);
        assert forall|p: nat| v.is_page(p) implies #[trigger] budget(manager@, p) == budget(v, p)
            - uses(all, l, 512, p) by {
            assert(uses(all, l, 0, p) == 0);
        }
    }
    release_page(pa, manager);
}

/// Whether the entry at which the walk for `x` ends is also that of an address
/// from `first` up to `stop`.
pub open spec fn entry_touched(table: PageTable, x: nat, first: nat, stop: nat) -> bool {
    exists|y: nat| first <= y < stop && #[trigger] same_region(x, y, table.slot_at(x).level)
}

/// Going on to the next entry touches what shares the entry of `cur`.
pub proof fn lemma_touch_step(table: PageTable, v: PagesView, first: nat, cur: nat, x: nat)
    requires
        table.wf(v),
        first <= cur <= VA_MAX,
        x <= VA_MAX,
    ensures
        ({
            let at = table.slot_at(cur);
            let next = (entry_base(at, cur) + level_size(at.level)) as nat;
            &&& cur < next
            &&& at.level <= 2
            &&& table.slot_at(x).level <= 2
            &&& same_region(x, cur, at.level) ==> table.slot_at(x) == at
            &&& entry_touched(table, x, first, next) <==> entry_touched(table, x, first, cur)
                || same_region(x, cur, at.level)
        }),
{
    let at = table.slot_at(cur);
    let next = (entry_base(at, cur) + level_size(at.level)) as nat;
    lemma_path_to_slot(table.0.entries@, 2, cur, v);
    lemma_path_to_slot(table.0.entries@, 2, x, v);
    lemma_entry_base(cur, at.level);
    let level = table.slot_at(x).level;
    if same_region(x, cur, at.level) {
        lemma_slot_region(table.0.entries@, 2, cur, x, v);
        assert(same_region(x, cur, level));
    }
    if entry_touched(table, x, first, next) && !entry_touched(table, x, first, cur) {
        let y = choose|y: nat| first <= y < next && #[trigger] same_region(x, y, level);
        assert(y >= cur);
        assert(same_region(y, cur, at.level));
        lemma_slot_region(table.0.entries@, 2, cur, y, v);
        lemma_slot_region(table.0.entries@, 2, x, y, v);
    }
    if entry_touched(table, x, first, cur) {
        let y = choose|y: nat| first <= y < cur && #[trigger] same_region(x, y, level);
        assert(first <= y < next);
    }
}

/// Whether all uses that a table makes of pages have been given back.
pub open spec fn freed(table: PageTable, v: PagesView, w: PagesView) -> bool {
    &&& w.same_heap(v)
    &&& w.ram == v.ram
    &&& forall|p: nat| v.is_page(p) ==> #[trigger] budget(w, p) == table.spare(v, p)
}

impl PageTable {
    /// Whether every use of a page by this table is counted.
    pub open spec fn backed(self, v: PagesView) -> bool {
        forall|p: nat| v.is_page(p) ==> #[trigger] self.spare(v, p) >= 0
    }

    /// Gives back all pages that the table uses.
    pub fn free(self, manager: &mut PageManager)
        requires
            old(manager).wf(),
            self.wf(old(manager)@),
            self.backed(old(manager)@),
        ensures
            final(manager).wf(),
            final(manager)@.same_heap(old(manager)@),
            final(manager)@.ram == old(manager)@.ram,
            forall|p: nat|
                old(manager)@.is_page(p) ==> #[trigger] budget(final(manager)@, p) == self.spare(
                    old(manager)@,
                    p,
                ),
            freed(self, old(manager)@, final(manager)@),
    {
        let ghost v = manager@;
        proof {
            assert forall|p: nat| v.is_page(p) implies uses_entry(
                PtEntry::Table { table: self.0 },
                3,
                p,
            ) <= #[trigger] budget(v, p) && uses_entry(PtEntry::Table { table: self.0 }, 3, p)
                == self.uses(p) by {
                assert(self.spare(v, p) >= 0);
            }
        }
        free_tree(self.0, 2, manager);
    }

    /// Unmaps the pages that hold any of the `size` bytes from `va` on.
    pub fn unmap_addrs(&mut self, va: VirtAddr, size: u64, manager: &mut PageManager) -> (r: Result<
        (),
        KernelError,
    >)
        requires
            old(manager).wf(),
            old(self).wf(old(manager)@),
            old(self).backed(old(manager)@),
            va.0 <= VA_MAX,
        ensures
            va.byte_add_spec(size) matches Err(e) ==> {
                &&& r == Err::<(), KernelError>(e)
                &&& *final(self) == *old(self)
                &&& final(manager)@ == old(manager)@
            },
            va.byte_add_spec(size) is Ok ==> {
                &&& r is Ok
                &&& unmapped(
                    *old(self),
                    old(manager)@,
                    *final(self),
                    final(manager)@,
                    va.0 as nat,
                    (va.0 + size) as nat,
                )
            },
            final(manager).wf(),
            final(self).wf(final(manager)@),
            final(self).backed(final(manager)@),
    {
        let start: VirtAddr = va;
        let end: VirtAddr = match va.byte_add(size) {
            Ok(end) => end,
            Err(e) => {
                return Err(e);
            },
        };
        self.unmap_range(VirtAddrBounds::range(start, end), manager);
        Ok(())
    }

    /// Unmaps the pages that hold any address of the range.
    pub fn unmap_range(&mut self, va_range: VirtAddrBounds, manager: &mut PageManager)
        requires
            old(manager).wf(),
            old(self).wf(old(manager)@),
            old(self).backed(old(manager)@),
            va_range.in_bounds(),
        ensures
            final(manager).wf(),
            final(self).wf(final(manager)@),
            final(self).backed(final(manager)@),
            va_range.nonempty() ==> unmapped(
                *old(self),
                old(manager)@,
                *final(self),
                final(manager)@,
                va_range.first()->0,
                va_range.last()->0 + 1,
            ),
            !va_range.nonempty() ==> unmapped(
                *old(self),
                old(manager)@,
                *final(self),
                final(manager)@,
                0,
                0,
            ),
    {
        let span: VirtAddrSpan = match VirtAddr::range_inclusive(va_range) {
            Some(span) => span,
            None => {
                return;
            },
        };
        let ghost first = span.first.0 as nat;
        let ghost table = *self;
        let ghost v = manager@;
        let last: u64 = span.last.0;
        let mut cur: u64 = span.first.0;
        while cur <= last
            invariant
                table == *old(self),
                v == old(manager)@,
                manager.wf(),
                self.wf(manager@),
                table.wf(v),
                table.backed(v),
                last <= VA_MAX,
                first <= cur,
                cur <= VA_MAX + 0x4000_0000,
                va_range.nonempty(),
                va_range.first() == Some(first),
                va_range.last() == Some(last as nat),
                unmapped(table, v, *self, manager@, first, cur as nat),
                entry_span(table, last as nat, cur as nat),
            decreases VA_MAX + 0x4000_0001 - cur,
        {
            let va: VirtAddr = VirtAddr(cur);
            let ghost before = *self;
            let ghost w = manager@;
            proof {
                manager.lemma_wf();
                lemma_level_sizes();
                lemma_wf_heap(table.0.entries@, 2, v, w);
                lemma_path_to_slot(before.0.entries@, 2, cur as nat, w);
            }
            let (level, leaf) = self.walk(va, Ghost(w));
            let size: u64 = level_page_size(level);
            assert(cur % size <= cur) by (nonlinear_arith)
                requires
                    size > 0,
            ;
            let start: u64 = cur - cur % size;
            let ghost base = (cur - cur as nat % level_size(level as nat)) as nat;
            proof {
                lemma_entry_base(cur as nat, level as nat);
                lemma_touch_step(table, v, first, cur as nat, cur as nat);
                assert(table.slot_at(cur as nat).level == level);
            }
            match leaf {
                Some(page) => {
                    self.set_slot(level, va, PtEntry::Invalid, Ghost(w));
                    proof {
                        assert forall|p: nat| w.is_page(p) implies #[trigger] budget(w, p)
                            >= leaf_uses(before.slot_at(cur as nat), p) by {
                            assert(v.is_page(p));
                            assert(table.spare(v, p) >= 0);
                            assert(before.spare(w, p) == table.spare(v, p));
                            assert(leaf_uses(before.slot_at(cur as nat), p) <= before.uses(p));
                        }
                        if w.is_page(page.pa.0 as nat) {
                            assert(budget(w, page.pa.0 as nat) >= 1);
                        }
                    }
                    release_page(page.pa, manager);
                    proof {
                        lemma_wf_heap(self.0.entries@, 2, w, manager@);
                    }
                },
                None => {},
            }
            proof {
                let next = (base + size) as nat;
                assert forall|x: nat| x <= VA_MAX implies #[trigger] self.slot_at(x)
                    == unmapped_slot(table, x, first, next) by {
                    lemma_touch_step(table, v, first, cur as nat, x);
                    assert(before.slot_at(x) == unmapped_slot(table, x, first, cur as nat));
                    if same_region(x, cur as nat, level as nat) && entry_touched(
                        table,
                        cur as nat,
                        first,
                        cur as nat,
                    ) {
                        let y = choose|y: nat|
                            first <= y < cur && #[trigger] same_region(
                                cur as nat,
                                y,
                                level as nat,
                            );
                        assert(same_region(x, y, level as nat));
                    }
                }
                assert forall|p: nat| v.is_page(p) implies #[trigger] self.spare(manager@, p)
                    == table.spare(v, p) by {
                    assert(w.is_page(p));
                    assert(before.spare(w, p) == table.spare(v, p));
                    if leaf is Some {
                        assert(self.uses(p) == before.uses(p) - leaf_uses(
                            before.slot_at(cur as nat),
                            p,
                        ) + uses_entry(PtEntry::Invalid, level as nat, p));
                        assert(budget(manager@, p) == budget(w, p) - if p == leaf->0.pa.0 {
                            1int
                        } else {
                            0
                        });
                    }
                }
            }
            cur = start + size;
        }
        proof {
            assert forall|x: nat| x <= VA_MAX implies #[trigger] self.slot_at(x) == unmapped_slot(
                table,
                x,
                first,
                (last + 1) as nat,
            ) by {
                lemma_span_end(table, v, x, first, last as nat, cur as nat);
            }
        }
    }
}

/// What a table says of an address after the pages that hold any of the
/// addresses from `first` up to `stop` are unmapped.
pub open spec fn unmapped_slot(table: PageTable, x: nat, first: nat, stop: nat) -> Slot {
    if entry_touched(table, x, first, stop) {
        Slot { level: table.slot_at(x).level, leaf: None }
    } else {
        table.slot_at(x)
    }
}

/// Whether the pages that hold any of the addresses from `first` up to `stop`
/// are unmapped and given back, and nothing else has changed.
pub open spec fn unmapped(
    old_table: PageTable,
    v: PagesView,
    table: PageTable,
    w: PagesView,
    first: nat,
    stop: nat,
) -> bool {
    &&& table.0.pa == old_table.0.pa
    &&& w.same_heap(v)
    &&& w.ram == v.ram
    &&& forall|x: nat|
        x <= VA_MAX ==> #[trigger] table.slot_at(x) == unmapped_slot(old_table, x, first, stop)
    &&& forall|p: nat|
        v.is_page(p) ==> #[trigger] table.spare(w, p) == old_table.spare(v, p)
}

/// Whether `cur` is at most one entry beyond `last`.
pub open spec fn entry_span(table: PageTable, last: nat, cur: nat) -> bool {
    cur <= last || exists|z: nat|
        #![trigger table.slot_at(z)]
        z <= last && cur == entry_base(table.slot_at(z), z) + level_size(table.slot_at(z).level)
}

/// Going beyond `last` to the end of its entry touches no other entry.
pub proof fn lemma_span_end(table: PageTable, v: PagesView, x: nat, first: nat, last: nat, cur: nat)
    requires
        table.wf(v),
        first <= last < cur,
        last <= VA_MAX,
        x <= VA_MAX,
        entry_span(table, last, cur),
    ensures
        entry_touched(table, x, first, cur) <==> entry_touched(table, x, first, last + 1),
{
    let level = table.slot_at(x).level;
    let z = choose|z: nat|
        #![trigger table.slot_at(z)]
        z <= last && cur == entry_base(table.slot_at(z), z) + level_size(table.slot_at(z).level);
    lemma_path_to_slot(table.0.entries@, 2, z, v);
    lemma_path_to_slot(table.0.entries@, 2, x, v);
    let zl = table.slot_at(z).level;
    lemma_entry_base(z, zl);
    if entry_touched(table, x, first, last + 1) {
        let y = choose|y: nat| first <= y < last + 1 && #[trigger] same_region(x, y, level);
        assert(first <= y < cur);
    }
    if entry_touched(table, x, first, cur) {
        let y = choose|y: nat| first <= y < cur && #[trigger] same_region(x, y, level);
        if y > last {
            assert(same_region(last, z, zl));
            assert(same_region(y, z, zl));
            lemma_slot_region(table.0.entries@, 2, z, y, v);
            lemma_slot_region(table.0.entries@, 2, x, y, v);
            assert(same_region(x, last, level));
        }
    }
}

} // verus!
