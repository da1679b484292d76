//! Sharing the pages of one page table with another.
use super::super::addr::{VirtAddr, VirtAddrBounds, VirtAddrSpan, VA_MAX};
use super::super::page_manager::{lemma_retained_wf, Page, PageManager, PagesView};
use super::super::{level_page_size, level_size, lemma_level_sizes};
use super::access::{entry_base, leaf_uses, lemma_entry_base};
use super::cloning_needs::{
    grown_for, lemma_taken_none, lemma_taken_skip, lemma_taken_step, tables_for, tables_taken,
};
use super::entry::PtEntryFlags;
use super::needs::lemma_same_table;
use super::range::mapped_page;
use super::sharing::{entry_span, entry_touched, lemma_span_end, lemma_touch_step};
use super::tree::{
    budget, lemma_path_to_slot, lemma_slot_region, lemma_wf_heap, same_region, uses_entry, LeafPage,
    PtEntry, Slot,
};
use super::{MapTarget, PageTable};
use crate::error::KernelError;
use vstd::prelude::*;

verus! {

/// Where the entry that holds an address ends.
pub open spec fn entry_end(table: PageTable, x: nat) -> nat {
    (entry_base(table.slot_at(x), x) + level_size(table.slot_at(x).level)) as nat
}

/// Whether a page is mapped at an address.
pub open spec fn maps_page(table: PageTable, x: nat) -> bool {
    table.slot_at(x).leaf is Some
}

/// How many of the entries that hold the addresses from `cur` up to `stop` map a page.
pub open spec fn maps_of(table: PageTable, cur: nat, stop: nat, p: nat) -> nat
    decreases
            if cur >= stop {
                0
            } else {
                stop - cur
            },
{
    let at = table.slot_at(cur);
    if cur >= stop || entry_end(table, cur) <= cur {
        0
    } else {
        maps_of(table, entry_end(table, cur), stop, p) + if at.leaf is Some && at.leaf->0.pa.0
            == p {
            1nat
        } else {
            0
        }
    }
}

/// Whether each page that was in use has as many more users as entries from `first` up
/// to `cur` map it.
#[verifier::opaque]
pub open spec fn counted(src: PageTable, v: PagesView, w: PagesView, first: nat, cur: nat) -> bool {
    has_users(src, v, w, first, cur)
}

/// Whether all pages from `first` on to the entry that holds an address have the flags.
pub open spec fn clear_to(src: PageTable, x: nat, first: nat, flags: PtEntryFlags) -> bool {
    have_flags(src, first, entry_end(src, x), flags)
}

/// An entry whose page is shared from now on.
pub open spec fn shared_slot(at: Slot) -> Slot {
    match at.leaf {
        Some(leaf) => Slot {
            level: at.level,
            leaf: Some(LeafPage { pa: leaf.pa, flags: leaf.flags.shared() }),
        },
        None => at,
    }
}

/// What the source says of an address after the pages that hold any of the
/// addresses from `first` up to `stop` are shared.
pub open spec fn source_slot(src: PageTable, x: nat, first: nat, stop: nat) -> Slot {
    if entry_touched(src, x, first, stop) {
        shared_slot(src.slot_at(x))
    } else {
        src.slot_at(x)
    }
}

/// Whether the destination maps the pages of the source that hold any of the
/// addresses from `first` up to `stop`, and the rest as before.
pub open spec fn shares(
    src: PageTable,
    old_dst: PageTable,
    dst: PageTable,
    first: nat,
    stop: nat,
) -> bool {
    &&& dst.0.pa == old_dst.0.pa
    &&& forall|x: nat|
        x <= VA_MAX ==> {
            let after = #[trigger] dst.slot_at(x);
            if entry_touched(src, x, first, stop) && src.slot_at(x).leaf is Some {
                after == shared_slot(src.slot_at(x))
            } else {
                &&& after.leaf == old_dst.slot_at(x).leaf
                &&& after.leaf is Some ==> after == old_dst.slot_at(x)
                &&& after == old_dst.slot_at(x) || src.slot_at(x).level <= after.level
            }
        }
}

/// How often a page is counted beyond the uses by two tables.
pub open spec fn joint_spare(a: PageTable, b: PageTable, v: PagesView, p: nat) -> int {
    budget(v, p) - a.uses(p) - b.uses(p)
}

/// Whether a page of the source can be shared: it is one of the heap that
/// somebody uses and that is not marked as being for one user only, not even when it
/// has `more` users more, and it can still be accessed when it is no longer writable.
pub open spec fn shareable(leaf: LeafPage, v: PagesView, more: nat) -> bool {
    &&& v.is_page(leaf.pa.0 as nat)
    &&& 0 < v.count(leaf.pa.0 as nat)
    &&& v.count(leaf.pa.0 as nat) + more < u32::MAX
    &&& leaf.flags.shared().accessible()
}

/// Whether pages that were in use are as before but for having more users.
pub open spec fn kept(v: PagesView, w: PagesView) -> bool {
    &&& w.same_heap(v)
    &&& forall|p: nat|
        v.is_page(p) && v.count(p) > 0 ==> {
            &&& #[trigger] w.page_bytes(p) == v.page_bytes(p)
            &&& v.count(p) <= w.count(p)
        }
}

/// Whether the pages of the source that hold any of the addresses from `first` to `last`
/// can be shared, as far as it comes to that: up to the first one that lacks one of the
/// flags. The destination must map nothing there.
pub open spec fn can_clone(
    dst: PageTable,
    src: PageTable,
    v: PagesView,
    first: nat,
    last: nat,
    flags: PtEntryFlags,
) -> bool {
    forall|x: nat|
        x <= VA_MAX && entry_touched(src, x, first, (last + 1) as nat) && (#[trigger] src.slot_at(
            x,
        )).leaf is Some && clear_to(src, x, first, flags) ==> {
            &&& x < VA_MAX
            &&& shareable(
                src.slot_at(x).leaf->0,
                v,
                maps_of(src, first, entry_end(src, x), src.slot_at(x).leaf->0.pa.0 as nat),
            )
            &&& dst.slot_at(x).leaf is None
            &&& dst.slot_at(x).level >= src.slot_at(x).level
        }
}

#[verifier::opaque]
spec fn can_still_clone(
    dst: PageTable,
    src: PageTable,
    v: PagesView,
    first: nat,
    last: nat,
    flags: PtEntryFlags,
) -> bool {
    can_clone(dst, src, v, first, last, flags)
}

proof fn lemma_can_clone(
    dst: PageTable,
    src: PageTable,
    v: PagesView,
    first: nat,
    last: nat,
    flags: PtEntryFlags,
    x: nat,
)
    requires
        can_still_clone(dst, src, v, first, last, flags),
        x <= VA_MAX,
        entry_touched(src, x, first, (last + 1) as nat),
        src.slot_at(x).leaf is Some,
        clear_to(src, x, first, flags),
    ensures
        x < VA_MAX,
        shareable(
            src.slot_at(x).leaf->0,
            v,
            maps_of(src, first, entry_end(src, x), src.slot_at(x).leaf->0.pa.0 as nat),
        ),
        dst.slot_at(x).leaf is None,
        dst.slot_at(x).level >= src.slot_at(x).level,
{
    reveal(can_still_clone);
}

/// The next entry begins where the one before it ends, so it is a new one.
proof fn lemma_fresh(table: PageTable, v: PagesView, first: nat, cur: nat)
    requires
        table.wf(v),
        first <= cur <= VA_MAX,
        cur > first ==> exists|z: nat|
            #![trigger table.slot_at(z)]
            first <= z < cur && cur == entry_base(table.slot_at(z), z) + level_size(
                table.slot_at(z).level,
            ),
    ensures
        !entry_touched(table, cur, first, cur),
{
    if entry_touched(table, cur, first, cur) {
        let level = table.slot_at(cur).level;
        let y = choose|y: nat| first <= y < cur && #[trigger] same_region(cur, y, level);
        let z = choose|z: nat|
            #![trigger table.slot_at(z)]
            first <= z < cur && cur == entry_base(table.slot_at(z), z) + level_size(
                table.slot_at(z).level,
            );
        let zl = table.slot_at(z).level;
        lemma_path_to_slot(table.0.entries@, 2, z, v);
        lemma_path_to_slot(table.0.entries@, 2, cur, v);
        lemma_entry_base(z, zl);
        lemma_entry_base(cur, level);
        let x = (cur - 1) as nat;
        assert(same_region(y, cur, level));
        assert(same_region(x, cur, level));
        assert(same_region(x, z, zl));
        lemma_slot_region(table.0.entries@, 2, z, x, v);
        lemma_slot_region(table.0.entries@, 2, cur, x, v);
        assert(same_region(cur, z, zl));
    }
}

/// The destination after one more page.
proof fn lemma_share_step(
    src: PageTable,
    v: PagesView,
    old_dst: PageTable,
    before: PageTable,
    w: PagesView,
    after: PageTable,
    w2: PagesView,
    first: nat,
    cur: nat,
    page: LeafPage,
    r: Result<(), KernelError>,
)
    requires
        src.wf(v),
        first <= cur <= VA_MAX,
        shares(src, old_dst, before, first, cur),
        after.0.pa == before.0.pa,
        src.slot_at(cur).leaf == Some(page),
        page.flags.v,
        before.slot_at(entry_base(src.slot_at(cur), cur)).leaf is None,
        mapped_page(
            before,
            w,
            after,
            w2,
            src.slot_at(cur).level,
            VirtAddr(entry_base(src.slot_at(cur), cur) as u64),
            MapTarget::FixedAddr { addr: page.pa },
            page.flags.shared(),
            r,
        ),
    ensures
        r is Ok ==> shares(
            src,
            old_dst,
            after,
            first,
            (entry_base(src.slot_at(cur), cur) + level_size(src.slot_at(cur).level)) as nat,
        ),
        r is Err ==> shares(src, old_dst, after, first, cur),
{
    let at = src.slot_at(cur);
    let level = at.level;
    let base = entry_base(at, cur);
    let next = (base + level_size(level)) as nat;
    lemma_path_to_slot(src.0.entries@, 2, cur, v);
    lemma_entry_base(cur, level);
    assert(same_region(base, cur, level));
    lemma_slot_region(src.0.entries@, 2, cur, base, v);
    assert forall|x: nat| x <= VA_MAX implies {
        let to = #[trigger] after.slot_at(x);
        let stop = if r is Ok {
            next
        } else {
            cur
        };
        if entry_touched(src, x, first, stop) && src.slot_at(x).leaf is Some {
            to == shared_slot(src.slot_at(x))
        } else {
            &&& to.leaf == old_dst.slot_at(x).leaf
            &&& to.leaf is Some ==> to == old_dst.slot_at(x)
            &&& to == old_dst.slot_at(x) || src.slot_at(x).level <= to.level
        }
    } by {
        lemma_touch_step(src, v, first, cur, x);
        assert(same_region(x, base, level) <==> same_region(x, cur, level));
        let mid = before.slot_at(x);
        let to = after.slot_at(x);
        if to != mid && !same_region(x, base, level) {
            assert(mid.leaf is None && level <= to.level);
            if to.level <= 2 {
                lemma_same_table(src, v, x, base, to.level);
            }
            lemma_path_to_slot(src.0.entries@, 2, x, v);
        } else if to != mid && r is Err {
            assert(mid.leaf is None && level <= to.level);
            lemma_path_to_slot(src.0.entries@, 2, x, v);
            if to.level <= 2 {
                lemma_same_table(src, v, x, base, to.level);
            }
        }
    }
}

/// An entry that maps nothing changes nothing.
proof fn lemma_skip_step(
    src: PageTable,
    v: PagesView,
    old_dst: PageTable,
    dst: PageTable,
    other: PageTable,
    first: nat,
    cur: nat,
)
    requires
        src.wf(v),
        first <= cur <= VA_MAX,
        src.slot_at(cur).leaf is None,
        shares(src, old_dst, dst, first, cur),
        forall|x: nat|
            x <= VA_MAX ==> #[trigger] other.slot_at(x) == source_slot(src, x, first, cur),
    ensures
        ({
            let next = (entry_base(src.slot_at(cur), cur) + level_size(
                src.slot_at(cur).level,
            )) as nat;
            &&& shares(src, old_dst, dst, first, next)
            &&& forall|x: nat|
                x <= VA_MAX ==> #[trigger] other.slot_at(x) == source_slot(src, x, first, next)
        }),
{
    let next = (entry_base(src.slot_at(cur), cur) + level_size(src.slot_at(cur).level)) as nat;
    assert forall|x: nat| x <= VA_MAX implies #[trigger] other.slot_at(x) == source_slot(
        src,
        x,
        first,
        next,
    ) by {
        lemma_touch_step(src, v, first, cur, x);
    }
    assert forall|x: nat| x <= VA_MAX implies {
        let after = #[trigger] dst.slot_at(x);
        if entry_touched(src, x, first, next) && src.slot_at(x).leaf is Some {
            after == shared_slot(src.slot_at(x))
        } else {
            &&& after.leaf == old_dst.slot_at(x).leaf
            &&& after.leaf is Some ==> after == old_dst.slot_at(x)
            &&& after == old_dst.slot_at(x) || src.slot_at(x).level <= after.level
        }
    } by {
        lemma_touch_step(src, v, first, cur, x);
    }
}

impl PageTable {
    /// Shares one page of `other`.
    fn share_page(
        &mut self,
        other: &mut Self,
        level: usize,
        va: VirtAddr,
        start: VirtAddr,
        page: LeafPage,
        manager: &mut PageManager,
    ) -> (r: Result<(), KernelError>)
        requires
            old(manager).wf(),
            old(self).wf(old(manager)@),
            old(other).wf(old(manager)@),
            va.0 <= VA_MAX,
            start.0 <= VA_MAX,
            old(other).slot_at(va.0 as nat) == (Slot { level: level as nat, leaf: Some(page) }),
            old(manager)@.is_page(page.pa.0 as nat),
            0 < old(manager)@.count(page.pa.0 as nat) < u32::MAX,
            page.flags.shared().accessible(),
            old(self).slot_at(start.0 as nat).leaf is None,
            old(self).slot_at(start.0 as nat).level >= level,
        ensures
            final(manager).wf(),
            final(self).wf(final(manager)@),
            final(other).wf(final(manager)@),
            final(self).0.pa == old(self).0.pa,
            final(other).0.pa == old(other).0.pa,
            forall|x: nat|
                x <= VA_MAX ==> #[trigger] final(other).slot_at(x) == (if same_region(
                    x,
                    va.0 as nat,
                    level as nat,
                ) {
                    shared_slot(old(other).slot_at(va.0 as nat))
                } else {
                    old(other).slot_at(x)
                }),
            forall|p: nat| #[trigger] final(other).uses(p) == old(other).uses(p),
            mapped_page(
                *old(self),
                old(manager)@.retained(page.pa.0 as nat),
                *final(self),
                final(manager)@,
                level as nat,
                start,
                MapTarget::FixedAddr { addr: page.pa },
                page.flags.shared(),
                r,
            ),
    {
        let ghost w = manager@;
        let ghost src = *other;
        let ghost a = va.0 as nat;
        let shared: PtEntryFlags = page.flags.shared_flags();
        proof {
            manager.lemma_wf();
            lemma_level_sizes();
            lemma_path_to_slot(other.0.entries@, 2, a, w);
        }
        other.set_slot(level, va, PtEntry::Leaf { pa: page.pa, flags: shared }, Ghost(w));
        proof {
            assert forall|p: nat| #[trigger] other.uses(p) == src.uses(p) by {
                assert(leaf_uses(src.slot_at(a), p) <= src.uses(p));
                assert(leaf_uses(src.slot_at(a), p) == uses_entry(
                    PtEntry::Leaf { pa: page.pa, flags: shared },
                    level as nat,
                    p,
                ));
            }
        }
        let ghost src1 = *other;
        let handle = Page::from_raw(manager, page.pa);
        proof {
            lemma_retained_wf(w, page.pa.0 as nat);
        }
        handle.increment_ref(manager);
        let ghost w1 = manager@;
        let target = MapTarget::fixed_addr(handle.into_raw());
        proof {
            lemma_wf_heap(self.0.entries@, 2, w, w1);
            lemma_wf_heap(other.0.entries@, 2, w, w1);
            lemma_path_to_slot(self.0.entries@, 2, start.0 as nat, w1);
        }
        let result = self.map_page(level, start, target, shared, manager);
        proof {
            lemma_wf_heap(src1.0.entries@, 2, w1, manager@);
        }
        result
    }

    /// Shares the pages of `other` that hold any address of the range: both
    /// tables map them from now on, and a writable page is copied on the next
    /// write by either.
    ///
    /// Fails at the first page that lacks one of `flags`, or when there is no
    /// memory for another table. In the latter case the page that was to be
    /// mapped next keeps one use more than the two tables make of it.
    #[verifier::rlimit(100)]
    #[verifier::spinoff_prover]
    pub fn clone_pages_from(
        &mut self,
        other: &mut Self,
        va_range: VirtAddrBounds,
        flags: PtEntryFlags,
        manager: &mut PageManager,
    ) -> (r: Result<(), KernelError>)
        requires
            old(manager).wf(),
            old(self).wf(old(manager)@),
            old(other).wf(old(manager)@),
            va_range.in_bounds(),
            va_range.nonempty() ==> can_clone(
                *old(self),
                *old(other),
                old(manager)@,
                va_range.first()->0,
                va_range.last()->0,
                flags,
            ),
        ensures
            final(manager).wf(),
            final(self).wf(final(manager)@),
            final(other).wf(final(manager)@),
            final(other).0.pa == old(other).0.pa,
            kept(old(manager)@, final(manager)@),
            cloned(
                *old(self),
                *old(other),
                old(manager)@,
                *final(self),
                *final(other),
                final(manager)@,
                va_range,
                flags,
                r,
            ),
    {
        let ghost dst = *self;
        let ghost src = *other;
        let ghost v = manager@;
        proof {
            manager.lemma_wf();
        }
        let span: VirtAddrSpan = match VirtAddr::range_inclusive(va_range) {
            Some(span) => span,
            None => {
                return Ok(());
            },
        };
        let ghost first = span.first.0 as nat;
        let last: u64 = span.last.0;
        let mut cur: u64 = span.first.0;
        proof {
            lemma_taken_none(dst, src, v, first);
            reveal(counted);
            reveal(can_still_clone);
        }
        while cur <= last
            invariant
                dst == *old(self),
                src == *old(other),
                v == old(manager)@,
                v.wf(),
                dst.wf(v),
                src.wf(v),
                manager.wf(),
                self.wf(manager@),
                other.wf(manager@),
                other.0.pa == src.0.pa,
                last <= VA_MAX,
                first <= cur,
                cur <= VA_MAX + 0x4000_0000,
                va_range.nonempty(),
                va_range.first() == Some(first),
                va_range.last() == Some(last as nat),
                entry_span(src, last as nat, cur as nat),
                cur > first ==> exists|z: nat|
                    #![trigger src.slot_at(z)]
                    first <= z < cur && cur == entry_base(src.slot_at(z), z) + level_size(
                        src.slot_at(z).level,
                    ),
                kept(v, manager@),
                counted(src, v, manager@, first, cur as nat),
                tables_taken(dst, src, v, manager@, first, cur as nat),
                grown_for(dst, *self, src, first, cur as nat),
                shares(src, dst, *self, first, cur as nat),
                forall|x: nat|
                    x <= VA_MAX ==> #[trigger] other.slot_at(x) == source_slot(
                        src,
                        x,
                        first,
                        cur as nat,
                    ),
                forall|p: nat|
                    v.is_page(p) ==> #[trigger] joint_spare(*self, *other, manager@, p)
                        == joint_spare(dst, src, v, p),
                have_flags(src, first, cur as nat, flags),
                can_still_clone(dst, src, v, first, last as nat, flags),
            decreases VA_MAX + 0x4000_0001 - cur,
        {
            let va: VirtAddr = VirtAddr(cur);
            let ghost c = cur as nat;
            let ghost w = manager@;
            let ghost dst1 = *self;
            let ghost src1 = *other;
            proof {
                manager.lemma_wf();
                lemma_level_sizes();
                lemma_fresh(src, v, first, c);
                lemma_path_to_slot(src.0.entries@, 2, c, v);
                assert(other.slot_at(c) == src.slot_at(c));
            }
            let (level, leaf) = other.walk(va, Ghost(w));
            let size: u64 = level_page_size(level);
            assert(cur % size <= cur) by (nonlinear_arith)
                requires
                    size > 0,
            ;
            let start: u64 = cur - cur % size;
            let ghost base = entry_base(src.slot_at(c), c);
            let ghost next = (base + size) as nat;
            proof {
                lemma_entry_base(c, level as nat);
                lemma_touch_step(src, v, first, c, c);
                assert(start == base);
            }
            match leaf {
                Some(page) => {
                    if !page.flags.contains(flags) {
                        proof {
                            assert(cloned_until(dst, src, v, *self, *other, w, first, c, c, None));
                            assert(src.slot_at(c).leaf is Some);
                            reveal(counted);
                            reveal(tables_taken);
                        }
                        return Err(KernelError::InaccessiblePage(VirtAddr(start)));
                    }
                    proof {
                        assert(entry_touched(src, c, first, (last + 1) as nat)) by {
                            assert(same_region(c, c, level as nat));
                        }
                        assert(same_region(base, c, level as nat));
                        lemma_slot_region(src.0.entries@, 2, c, base, v);
                        assert(entry_touched(src, base, first, (last + 1) as nat));
                        lemma_clear(src, v, first, c, flags);
                        lemma_can_clone(dst, src, v, first, last as nat, flags, c);
                        lemma_can_clone(dst, src, v, first, last as nat, flags, base);
                        lemma_counted_at(src, v, w, first, c);
                        assert(w.page_bytes(page.pa.0 as nat) == v.page_bytes(page.pa.0 as nat));
                    }
                    proof {
                        lemma_untouched_base(src, v, first, c);
                        lemma_path_to_slot(dst1.0.entries@, 2, base, w);
                        assert(dst1.slot_at(base).leaf == dst.slot_at(base).leaf);
                    }
                    let result = self.share_page(
                        other,
                        level,
                        va,
                        VirtAddr(start),
                        page,
                        manager,
                    );
                    proof {
                        manager.lemma_wf();
                        let w2 = manager@;
                        let w1 = w.retained(page.pa.0 as nat);
                        lemma_retained_wf(w, page.pa.0 as nat);
                        lemma_share_step(src, v, dst, dst1, w1, *self, w2, first, c, page, result);
                        assert forall|x: nat| x <= VA_MAX implies #[trigger] other.slot_at(x)
                            == source_slot(src, x, first, next) by {
                            lemma_touch_step(src, v, first, c, x);
                            assert(src1.slot_at(x) == source_slot(src, x, first, c));
                        }
                        assert forall|p: nat| v.is_page(p) implies #[trigger] joint_spare(
                            *self,
                            *other,
                            w2,
                            p,
                        ) == joint_spare(dst, src, v, p) + if result is Err && p == page.pa.0 {
                            1int
                        } else {
                            0
                        } by {
                            assert(joint_spare(dst1, src1, w, p) == joint_spare(dst, src, v, p));
                            assert(other.uses(p) == src1.uses(p));
                            assert(self.spare(w2, p) == dst1.spare(w1, p) - if result is Ok
                                && page.pa.0 == p {
                                1int
                            } else {
                                0
                            });
                            assert(w.is_page(p));
                            if p != page.pa.0 {
                                assert(w1.count(p) == w.count(p));
                            }
                        }
                        lemma_kept_step(v, w, w1, w2, page.pa.0 as nat);
                        lemma_counted_step(src, v, w, w2, first, c);
                        lemma_taken_step(dst, src, v, dst1, w, *self, w2, first, c, page, result);
                        if result is Err {
                            assert(cloned_until(
                                dst,
                                src,
                                v,
                                *self,
                                *other,
                                w2,
                                first,
                                next,
                                c,
                                Some(page.pa.0 as nat),
                            ));
                            assert(src.slot_at(c).leaf is Some);
                            reveal(counted);
                        }
                    }
                    match result {
                        Ok(_) => {},
                        Err(e) => {
                            return Err(e);
                        },
                    }
                },
                None => {
                    proof {
                        lemma_skip_step(src, v, dst, *self, *other, first, c);
                        lemma_counted_step(src, v, w, w, first, c);
                        lemma_taken_skip(dst, *self, src, v, w, first, c);
                    }
                },
            }
            proof {
                assert forall|x: nat|
                    first <= x < next && (#[trigger] src.slot_at(x)).leaf is Some implies src.slot_at(
                    x,
                ).leaf->0.flags.has(flags) by {
                    if x >= c {
                        assert(same_region(x, c, level as nat));
                        lemma_slot_region(src.0.entries@, 2, c, x, v);
                    }
                }
                assert(src.slot_at(c).level == level);
            }
            cur = start + size;
        }
        proof {
            let stop = (last + 1) as nat;
            assert forall|x: nat| x <= VA_MAX implies entry_touched(src, x, first, cur as nat)
                == #[trigger] entry_touched(src, x, first, stop) by {
                lemma_span_end(src, v, x, first, last as nat, cur as nat);
            }
            assert(shares(src, dst, *self, first, stop));
            assert forall|x: nat| x <= VA_MAX implies #[trigger] other.slot_at(x) == source_slot(
                src,
                x,
                first,
                stop,
            ) by {
                assert(entry_touched(src, x, first, cur as nat) == entry_touched(
                    src,
                    x,
                    first,
                    stop,
                ));
            }
            assert(cloned_until(dst, src, v, *self, *other, manager@, first, stop, stop, None));
            reveal(counted);
            reveal(tables_taken);
            lemma_last_entry(src, v, last as nat, cur as nat);
        }
        Ok(())
    }
}

/// Whether the source is shared up to `src_stop` and the destination has the
/// pages up to `dst_stop`, with the uses of all pages counted, but for one that
/// is counted once more.
pub open spec fn cloned_until(
    old_dst: PageTable,
    old_src: PageTable,
    v: PagesView,
    dst: PageTable,
    src: PageTable,
    w: PagesView,
    first: nat,
    src_stop: nat,
    dst_stop: nat,
    extra: Option<nat>,
) -> bool {
    &&& shares(old_src, old_dst, dst, first, dst_stop)
    &&& forall|x: nat|
        x <= VA_MAX ==> #[trigger] src.slot_at(x) == source_slot(old_src, x, first, src_stop)
    &&& forall|p: nat|
        v.is_page(p) ==> #[trigger] joint_spare(dst, src, w, p) == joint_spare(
            old_dst,
            old_src,
            v,
            p,
        ) + if extra == Some(p) {
            1int
        } else {
            0
        }
}

/// Whether all pages from `first` up to `stop` have the flags.
pub open spec fn have_flags(src: PageTable, first: nat, stop: nat, flags: PtEntryFlags) -> bool {
    forall|y: nat|
        first <= y < stop && (#[trigger] src.slot_at(y)).leaf is Some
            ==> src.slot_at(y).leaf->0.flags.has(flags)
}

/// Whether each page that was in use has one user more for each entry from `first` up to
/// `stop` that maps it.
pub open spec fn has_users(
    src: PageTable,
    v: PagesView,
    w: PagesView,
    first: nat,
    stop: nat,
) -> bool {
    forall|p: nat|
        v.is_page(p) && v.count(p) > 0 ==> #[trigger] w.count(p) == v.count(p) + maps_of(
            src,
            first,
            stop,
            p,
        )
}

/// What has become of two tables after sharing the pages of a range.
///
/// The tables of the destination that are made on the way come from the free list, and
/// there is no memory for another one exactly when the list is shorter than what they
/// take.
pub open spec fn cloned(
    old_dst: PageTable,
    old_src: PageTable,
    v: PagesView,
    dst: PageTable,
    src: PageTable,
    w: PagesView,
    va_range: VirtAddrBounds,
    flags: PtEntryFlags,
    r: Result<(), KernelError>,
) -> bool {
    if !va_range.nonempty() {
        r is Ok && dst == old_dst && src == old_src && w == v
    } else {
        let first = va_range.first()->0;
        let last = va_range.last()->0;
        match r {
            Ok(_) => {
                let stop = entry_end(old_src, last);
                let tables = tables_for(old_dst, old_src, first, first, stop);
                &&& cloned_until(old_dst, old_src, v, dst, src, w, first, last + 1, last + 1, None)
                &&& have_flags(old_src, first, last + 1, flags)
                &&& has_users(old_src, v, w, first, stop)
                &&& tables <= v.free.len()
                &&& w.free == v.free.skip(tables as int)
            },
            Err(KernelError::InaccessiblePage(va)) => exists|x: nat|
                {
                    let at = #[trigger] old_src.slot_at(x);
                    let tables = tables_for(old_dst, old_src, first, first, x);
                    &&& first <= x <= last
                    &&& at.leaf is Some
                    &&& !at.leaf->0.flags.has(flags)
                    &&& va.0 == entry_base(at, x)
                    &&& cloned_until(old_dst, old_src, v, dst, src, w, first, x, x, None)
                    &&& have_flags(old_src, first, x, flags)
                    &&& has_users(old_src, v, w, first, x)
                    &&& tables <= v.free.len()
                    &&& w.free == v.free.skip(tables as int)
                },
            Err(KernelError::NoFreePage) => {
                &&& w.free.len() == 0
                &&& exists|x: nat|
                    {
                        let at = #[trigger] old_src.slot_at(x);
                        let stop = entry_end(old_src, x);
                        &&& first <= x <= last
                        &&& at.leaf is Some
                        &&& cloned_until(
                            old_dst,
                            old_src,
                            v,
                            dst,
                            src,
                            w,
                            first,
                            stop,
                            x,
                            Some(at.leaf->0.pa.0 as nat),
                        )
                        &&& have_flags(old_src, first, stop, flags)
                        &&& has_users(old_src, v, w, first, stop)
                        &&& tables_for(old_dst, old_src, first, first, x) <= v.free.len()
                        &&& v.free.len() < tables_for(old_dst, old_src, first, first, stop)
                    }
            },
            _ => false,
        }
    }
}

/// What it takes to share some pages is part of what it takes to share more of them.
proof fn lemma_tables_within(
    dst: PageTable,
    src: PageTable,
    first: nat,
    cur: nat,
    stop: nat,
    end: nat,
)
    requires
        stop <= end,
    ensures
        tables_for(dst, src, first, cur, stop) <= tables_for(dst, src, first, cur, end),
    decreases
            if cur >= stop {
                0
            } else {
                stop - cur
            },
{
    if cur < stop && entry_end(src, cur) > cur {
        lemma_tables_within(dst, src, first, entry_end(src, cur), stop, end);
    }
}

/// Sharing does not run out of memory where there are as many free pages as it takes to
/// make the tables for all pages of the range.
pub proof fn law_enough_to_clone(
    old_dst: PageTable,
    old_src: PageTable,
    v: PagesView,
    dst: PageTable,
    src: PageTable,
    w: PagesView,
    va_range: VirtAddrBounds,
    flags: PtEntryFlags,
    r: Result<(), KernelError>,
)
    requires
        old_src.wf(v),
        va_range.nonempty(),
        cloned(old_dst, old_src, v, dst, src, w, va_range, flags, r),
        tables_for(
            old_dst,
            old_src,
            va_range.first()->0,
            va_range.first()->0,
            entry_end(old_src, va_range.last()->0),
        ) <= v.free.len(),
    ensures
        r != Err::<(), KernelError>(KernelError::NoFreePage),
{
    if r == Err::<(), KernelError>(KernelError::NoFreePage) {
        let first = va_range.first()->0;
        let last = va_range.last()->0;
        let x = choose|x: nat|
            {
                let at = #[trigger] old_src.slot_at(x);
                &&& first <= x <= last
                &&& at.leaf is Some
                &&& v.free.len() < tables_for(old_dst, old_src, first, first, entry_end(old_src, x))
            };
        lemma_same_entry(old_src, v, last, last);
        if entry_end(old_src, x) > last {
            lemma_same_entry(old_src, v, x, last);
        }
        lemma_tables_within(
            old_dst,
            old_src,
            first,
            first,
            entry_end(old_src, x),
            entry_end(old_src, last),
        );
    }
}

/// All addresses of an entry have the same one.
pub proof fn lemma_same_entry(table: PageTable, v: PagesView, a: nat, z: nat)
    requires
        table.wf(v),
        a <= z < entry_end(table, a) || entry_base(table.slot_at(a), a) <= z <= a,
    ensures
        table.slot_at(z) == table.slot_at(a),
        entry_end(table, z) == entry_end(table, a),
        a < entry_end(table, a),
{
    let level = table.slot_at(a).level;
    lemma_path_to_slot(table.0.entries@, 2, a, v);
    lemma_level_sizes();
    lemma_entry_base(a, level);
    assert(same_region(z, a, level));
    lemma_slot_region(table.0.entries@, 2, a, z, v);
    lemma_entry_base(z, level);
    let x = entry_base(table.slot_at(a), a);
    let y = entry_base(table.slot_at(z), z);
    assert(same_region(x, a, level));
    assert(same_region(y, z, level));
    assert(same_region(y, a, level));
    assert(same_region(x, z, level));
}

/// What the entry at `c` adds, where `c` begins an entry or the addresses that are
/// looked at.
proof fn lemma_maps_step(table: PageTable, v: PagesView, a: nat, c: nat, p: nat)
    requires
        table.wf(v),
        a <= c,
        a < c ==> exists|z: nat|
            #![trigger table.slot_at(z)]
            a <= z < c && c == entry_end(table, z),
    ensures
        maps_of(table, a, entry_end(table, c), p) == maps_of(table, a, c, p) + (if table.slot_at(
            c,
        ).leaf is Some && table.slot_at(c).leaf->0.pa.0 == p {
            1int
        } else {
            0
        }),
    decreases c - a,
{
    lemma_same_entry(table, v, c, c);
    let end = entry_end(table, c);
    if a == c {
        assert(maps_of(table, end, end, p) == 0);
    } else {
        lemma_same_entry(table, v, a, a);
        let e = entry_end(table, a);
        let z = choose|z: nat|
            #![trigger table.slot_at(z)]
            a <= z < c && c == entry_end(table, z);
        if z < e {
            lemma_same_entry(table, v, a, z);
            assert(e == c);
        }
        lemma_same_entry(table, v, z, z);
        assert(e <= c);
        lemma_maps_step(table, v, e, c, p);
    }
}

/// A page that is to be shared next has fewer users than it will have.
proof fn lemma_counted_at(src: PageTable, v: PagesView, w: PagesView, first: nat, cur: nat)
    requires
        src.wf(v),
        counted(src, v, w, first, cur),
        first <= cur,
        cur > first ==> exists|z: nat|
            #![trigger src.slot_at(z)]
            first <= z < cur && cur == entry_end(src, z),
        src.slot_at(cur).leaf is Some,
        v.is_page(src.slot_at(cur).leaf->0.pa.0 as nat),
        v.count(src.slot_at(cur).leaf->0.pa.0 as nat) > 0,
    ensures
        w.count(src.slot_at(cur).leaf->0.pa.0 as nat) + 1 == v.count(
            src.slot_at(cur).leaf->0.pa.0 as nat,
        ) + maps_of(src, first, entry_end(src, cur), src.slot_at(cur).leaf->0.pa.0 as nat),
{
    reveal(counted);
    let pa = src.slot_at(cur).leaf->0.pa.0 as nat;
    lemma_maps_step(src, v, first, cur, pa);
    assert(w.count(pa) == v.count(pa) + maps_of(src, first, cur, pa));
}

/// The users that pages have after one more entry.
proof fn lemma_counted_step(
    src: PageTable,
    v: PagesView,
    w: PagesView,
    w2: PagesView,
    first: nat,
    cur: nat,
)
    requires
        src.wf(v),
        counted(src, v, w, first, cur),
        first <= cur,
        cur > first ==> exists|z: nat|
            #![trigger src.slot_at(z)]
            first <= z < cur && cur == entry_end(src, z),
        forall|p: nat|
            v.is_page(p) && v.count(p) > 0 ==> #[trigger] w2.count(p) == w.count(p) + if src.slot_at(
                cur,
            ).leaf is Some && src.slot_at(cur).leaf->0.pa.0 == p {
                1int
            } else {
                0
            },
    ensures
        counted(src, v, w2, first, entry_end(src, cur)),
{
    reveal(counted);
    assert forall|p: nat| v.is_page(p) && v.count(p) > 0 implies #[trigger] w2.count(p) == v.count(p)
        + maps_of(src, first, entry_end(src, cur), p) by {
        lemma_maps_step(src, v, first, cur, p);
        assert(w.count(p) == v.count(p) + maps_of(src, first, cur, p));
    }
}

/// A page with the flags has only such pages before it, if all up to it had them.
proof fn lemma_clear(src: PageTable, v: PagesView, first: nat, cur: nat, flags: PtEntryFlags)
    requires
        src.wf(v),
        first <= cur,
        src.slot_at(cur).leaf is Some,
        src.slot_at(cur).leaf->0.flags.has(flags),
        forall|x: nat|
            first <= x < cur && (#[trigger] src.slot_at(x)).leaf is Some
                ==> src.slot_at(x).leaf->0.flags.has(flags),
    ensures
        clear_to(src, cur, first, flags),
        clear_to(src, entry_base(src.slot_at(cur), cur), first, flags),
        entry_end(src, entry_base(src.slot_at(cur), cur)) == entry_end(src, cur),
{
    assert forall|y: nat|
        first <= y < entry_end(src, cur) && (#[trigger] src.slot_at(y)).leaf is Some implies src.slot_at(
        y,
    ).leaf->0.flags.has(flags) by {
        if y >= cur {
            lemma_same_entry(src, v, cur, y);
        }
    }
    lemma_path_to_slot(src.0.entries@, 2, cur, v);
    lemma_entry_base(cur, src.slot_at(cur).level);
    lemma_same_entry(src, v, cur, entry_base(src.slot_at(cur), cur));
}

/// Where the addresses that are looked at end.
proof fn lemma_last_entry(src: PageTable, v: PagesView, last: nat, cur: nat)
    requires
        src.wf(v),
        last < cur,
        entry_span(src, last, cur),
    ensures
        entry_end(src, last) == cur,
{
    let z = choose|z: nat|
        #![trigger src.slot_at(z)]
        z <= last && cur == entry_base(src.slot_at(z), z) + level_size(src.slot_at(z).level);
    assert(entry_end(src, z) == cur);
    lemma_same_entry(src, v, z, last);
}

/// If an entry is a new one at one of its addresses, it is at the first.
proof fn lemma_untouched_base(table: PageTable, v: PagesView, first: nat, cur: nat)
    requires
        table.wf(v),
        first <= cur <= VA_MAX,
        !entry_touched(table, cur, first, cur),
    ensures
        !entry_touched(table, entry_base(table.slot_at(cur), cur), first, cur),
{
    let at = table.slot_at(cur);
    let base = entry_base(at, cur);
    lemma_path_to_slot(table.0.entries@, 2, cur, v);
    lemma_entry_base(cur, at.level);
    assert(same_region(base, cur, at.level));
    lemma_slot_region(table.0.entries@, 2, cur, base, v);
    if entry_touched(table, base, first, cur) {
        let y = choose|y: nat| first <= y < cur && #[trigger] same_region(base, y, at.level);
        assert(same_region(cur, y, at.level));
    }
}

/// One more user of one page, and tables made of free pages.
proof fn lemma_kept_step(
    v: PagesView,
    w: PagesView,
    w1: PagesView,
    w2: PagesView,
    pa: nat,
)
    requires
        v.wf(),
        w.wf(),
        kept(v, w),
        w.is_page(pa),
        0 < w.count(pa) < u32::MAX - 1,
        w1 == w.retained(pa),
        w2.same_heap(w1),
        forall|p: nat|
            w1.is_page(p) && w1.count(p) > 0 ==> #[trigger] w2.count(p) == w1.count(p)
                && w2.page_bytes(p) == w1.page_bytes(p),
    ensures
        kept(v, w2),
        forall|p: nat|
            v.is_page(p) && v.count(p) > 0 ==> #[trigger] w2.count(p) == w.count(p) + if p == pa {
                1int
            } else {
                0
            },
{
    lemma_retained_wf(w, pa);
    assert forall|p: nat| v.is_page(p) && v.count(p) > 0 implies #[trigger] w2.count(p) == w.count(p)
        + if p == pa {
        1int
    } else {
        0
    } by {
        assert(w.page_bytes(p) == v.page_bytes(p));
        assert(w1.is_page(p));
        if p != pa {
            assert(w1.count(p) == w.count(p));
        }
        assert(w1.count(p) > 0 ==> w2.count(p) == w1.count(p));
    }
    assert forall|p: nat| v.is_page(p) && v.count(p) > 0 implies {
        &&& #[trigger] w2.page_bytes(p) == v.page_bytes(p)
        &&& v.count(p) <= w2.count(p)
    } by {
        assert(w.page_bytes(p) == v.page_bytes(p));
        assert(w1.page_bytes(p) == w.page_bytes(p));
        assert(w2.count(p) >= w.count(p));
        assert(w1.is_page(p));
        if p != pa {
            assert(w1.count(p) == w.count(p));
        }
        assert(w1.count(p) > 0 ==> w2.count(p) == w1.count(p));
    }
}

/// A page that some entry maps is counted, and one that none maps is not.
proof fn lemma_maps(table: PageTable, v: PagesView, cur: nat, stop: nat, x: nat, p: nat)
    requires
        table.wf(v),
    ensures
        cur <= x < stop && table.slot_at(x).leaf is Some && table.slot_at(x).leaf->0.pa.0 == p
            ==> maps_of(table, cur, stop, p) >= 1,
        (forall|y: nat|
            cur <= y < stop && (#[trigger] table.slot_at(y)).leaf is Some
                ==> table.slot_at(y).leaf->0.pa.0 != p) ==> maps_of(table, cur, stop, p) == 0,
    decreases
            if cur >= stop {
                0
            } else {
                stop - cur
            },
{
    if cur < stop {
        let end = entry_end(table, cur);
        lemma_same_entry(table, v, cur, cur);
        lemma_maps(table, v, end, stop, x, p);
        if cur <= x < end {
            lemma_same_entry(table, v, cur, x);
        }
        assert(table.slot_at(cur) == table.slot_at(cur));
    }
}

/// A page that has been shared has at least one user more than before, and a page that was
/// in use and is mapped nowhere in the range has as many as before. What pages in use hold
/// does not change.
pub proof fn law_shared_users(
    old_dst: PageTable,
    old_src: PageTable,
    v: PagesView,
    dst: PageTable,
    src: PageTable,
    w: PagesView,
    va_range: VirtAddrBounds,
    flags: PtEntryFlags,
    x: nat,
    p: nat,
)
    requires
        old_src.wf(v),
        va_range.nonempty(),
        kept(v, w),
        cloned(old_dst, old_src, v, dst, src, w, va_range, flags, Ok(())),
        v.is_page(p),
        v.count(p) > 0,
    ensures
        va_range.holds(x) && old_src.slot_at(x).leaf is Some && old_src.slot_at(x).leaf->0.pa.0 == p
            ==> w.count(p) >= v.count(p) + 1,
        (forall|y: nat|
            (#[trigger] old_src.slot_at(y)).leaf is Some ==> old_src.slot_at(y).leaf->0.pa.0 != p)
            ==> w.count(p) == v.count(p),
        w.page_bytes(p) == v.page_bytes(p),
{
    let first = va_range.first()->0;
    let last = va_range.last()->0;
    let stop = entry_end(old_src, last);
    lemma_same_entry(old_src, v, last, last);
    lemma_maps(old_src, v, first, stop, x, p);
    assert(w.count(p) == v.count(p) + maps_of(old_src, first, stop, p));
}

} // verus!
