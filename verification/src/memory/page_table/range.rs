//! What it means to map a range of addresses.
use super::super::addr::{lemma_round, round_down, round_up, PhysAddr, VirtAddr, VA_MAX};
use super::super::page_manager::PagesView;
use super::super::{level_size, lemma_level_sizes};
use super::entry::PtEntryFlags;
use super::needs::{needs_to, piece_needs, took_for};
use super::tree::{
    lemma_path_to_slot, lemma_region_up, lemma_slot_region, missing_tables, same_region, took,
    LeafPage, Slot,
};
use super::{MapTarget, PageTable};
use crate::error::KernelError;
use vstd::prelude::*;

verus! {

/// Whether a new table maps the page of level `level` at `va` as asked for, as
/// far as there is memory, and all other addresses as the old one.
pub open spec fn mapped_page(
    old_table: PageTable,
    v: PagesView,
    table: PageTable,
    w: PagesView,
    level: nat,
    va: VirtAddr,
    pa: MapTarget,
    perm: PtEntryFlags,
    r: Result<(), KernelError>,
) -> bool {
    let before = old_table.slot_at(va.0 as nat);
    let tables = missing_tables(before, level);
    let pages: nat = if before.leaf is None && pa is AllocatedAddr {
        1
    } else {
        0
    };
    let mapped = before.leaf is None && tables + pages <= v.free.len();
    let page = match pa {
        MapTarget::AllocatedAddr { .. } => PhysAddr(v.free[tables as int]),
        MapTarget::FixedAddr { addr } => addr,
    };
    &&& r == (if before.leaf is Some && before.leaf->0.flags.perm() != perm {
        Err::<(), KernelError>(
            KernelError::VirtualAddressWithUnexpectedPerm(va, perm, before.leaf->0.flags.perm()),
        )
    } else if v.free.len() < tables + pages {
        Err(KernelError::NoFreePage)
    } else {
        Ok(())
    })
    &&& took(
        v,
        w,
        if v.free.len() < tables + pages {
            v.free.len()
        } else {
            tables + pages
        },
    )
    &&& forall|x: nat|
        x <= VA_MAX && mapped && same_region(x, va.0 as nat, level) ==> (
        #[trigger] table.slot_at(x)) == (Slot {
            level,
            leaf: Some(LeafPage { pa: page, flags: perm.valid() }),
        })
    &&& forall|x: nat|
        x <= VA_MAX && !(mapped && same_region(x, va.0 as nat, level)) ==> (
        #[trigger] table.slot_at(x)).leaf == old_table.slot_at(x).leaf && (table.slot_at(x)
            == old_table.slot_at(x) || (old_table.slot_at(x).leaf is None && level <= table.slot_at(
            x,
        ).level <= old_table.slot_at(x).level && same_region(
            x,
            va.0 as nat,
            table.slot_at(x).level + 1,
        )))
    &&& mapped && pa is AllocatedAddr ==> w.page_bytes(page.0 as nat) == Seq::new(
        4096,
        |i: int| pa.fill(),
    ) && w.count(page.0 as nat) == 1
    &&& forall|p: nat|
        v.is_page(p) ==> #[trigger] table.spare(w, p) == old_table.spare(v, p) - if mapped
            && pa is FixedAddr && page.0 == p {
            1int
        } else {
            0
        }
}

/// The physical address that an address is translated to.
pub open spec fn translate(at: Slot, x: nat) -> nat {
    (at.leaf->0.pa.0 + x % level_size(at.level)) as nat
}

/// Whether a new table maps the addresses from `start` to `end` as asked for and
/// all others as the old one.
pub open spec fn mapped_range(
    old_table: PageTable,
    v: PagesView,
    table: PageTable,
    w: PagesView,
    start: nat,
    end: nat,
    pa: MapTarget,
    perm: PtEntryFlags,
    level: nat,
) -> bool {
    forall|x: nat|
        x <= VA_MAX ==> {
            let before = old_table.slot_at(x);
            let after = #[trigger] table.slot_at(x);
            if start <= x < end && before.leaf is None {
                &&& after.leaf matches Some(leaf)
                &&& leaf.flags == perm.valid()
                &&& match pa {
                    MapTarget::FixedAddr { addr } => translate(after, x) == addr.0 + (x - start),
                    MapTarget::AllocatedAddr { .. } => {
                        &&& v.free.contains(leaf.pa.0)
                        &&& w.count(leaf.pa.0 as nat) == 1
                        &&& w.page_bytes(leaf.pa.0 as nat) == Seq::new(4096, |i: int| pa.fill())
                    },
                }
            } else {
                &&& after.leaf == before.leaf
                &&& start <= x < end ==> before.leaf->0.flags.perm() == perm
                &&& after == before || (before.leaf is None && level <= after.level <= before.level)
            }
        }
}

/// Whether tables have been made for no other addresses than those from `start`
/// to `stop`, and none of a level below `level`.
pub open spec fn grown_near(
    old_table: PageTable,
    table: PageTable,
    start: nat,
    stop: nat,
    level: nat,
) -> bool {
    forall|x: nat|
        x <= VA_MAX && (#[trigger] table.slot_at(x)).leaf is None ==> {
            let before = old_table.slot_at(x);
            let after = table.slot_at(x);
            after == before || {
                &&& level <= after.level <= before.level
                &&& exists|y: nat| start <= y < stop && #[trigger] same_region(x, y, after.level + 1)
            }
        }
}

/// Whether the outcome of mapping the addresses up to `end` fits with having got
/// as far as `reached`.
pub open spec fn mapped_result(
    old_table: PageTable,
    v: PagesView,
    w: PagesView,
    reached: nat,
    end: nat,
    perm: PtEntryFlags,
    r: Result<(), KernelError>,
) -> bool {
    match r {
        Ok(_) => reached == end,
        Err(KernelError::NoFreePage) => {
            &&& reached < end
            &&& w.free.len() == 0
            &&& old_table.slot_at(reached).leaf is None
        },
        Err(KernelError::VirtualAddressWithUnexpectedPerm(va, wanted, found)) => {
            &&& reached < end
            &&& va.0 == reached
            &&& wanted == perm
            &&& old_table.slot_at(reached).leaf matches Some(leaf)
            &&& found == leaf.flags.perm()
            &&& found != perm
        },
        _ => false,
    }
}

/// How often mapping the addresses from `start` to `end` has taken over a use of
/// the page at `p`: once, if it is one of the pages that were to be mapped.
pub open spec fn taken_over(table: PageTable, start: nat, end: nat, pa: MapTarget, p: nat) -> int {
    match pa {
        MapTarget::FixedAddr { addr } => if addr.0 <= p < addr.0 + (end - start) && table.slot_at(
            (start + (p - addr.0)) as nat,
        ).leaf->0.pa.0 == p {
            1
        } else {
            0
        },
        MapTarget::AllocatedAddr { .. } => 0,
    }
}

/// [`taken_over`] where all pages have the same level.
pub open spec fn taken_multiples(start: nat, end: nat, pa: MapTarget, level: nat, p: nat) -> int {
    match pa {
        MapTarget::FixedAddr { addr } => if addr.0 <= p < addr.0 + (end - start) && (p - addr.0)
            % level_size(level) as int == 0 {
            1
        } else {
            0
        },
        MapTarget::AllocatedAddr { .. } => 0,
    }
}

/// One more page still fits.
pub proof fn lemma_step(k: nat, ps: nat, total: nat, start: nat, size: nat)
    requires
        ps > 0,
        k * ps < size,
        size == total * ps,
    ensures
        k < total,
        (k + 1) * ps == k * ps + ps,
        k * ps + ps <= size,
{
    assert(k < total) by (nonlinear_arith)
        requires
            k * ps < total * ps,
    ;
    assert((k + 1) * ps == k * ps + ps) by (nonlinear_arith);
    assert((k + 1) * ps <= total * ps) by (nonlinear_arith)
        requires
            k + 1 <= total,
    ;
}

/// Whole pages further up is still a page boundary.
pub proof fn lemma_multiple_aligned(start: nat, k: nat, ps: nat)
    requires
        ps > 0,
        start % ps == 0,
    ensures
        (start + k * ps) % ps == 0,
{
    vstd::arithmetic::div_mod::lemma_mod_multiples_vanish(k as int, start as int, ps as int);
    assert(start + k * ps == ps * k + start) by (nonlinear_arith);
}

/// A target stays aligned when it moves by whole pages.
pub proof fn lemma_plus_aligned(pa: MapTarget, k: nat, level: nat)
    requires
        level <= 2,
        pa.aligned(level),
        pa.has_room((k * level_size(level)) as int),
    ensures
        pa.plus((k * level_size(level)) as int).aligned(level),
        pa.plus((k * level_size(level)) as int).aligned(0),
{
    lemma_level_sizes();
    assert(0 <= k * level_size(level)) by (nonlinear_arith);
    match pa {
        MapTarget::FixedAddr { addr } => {
            lemma_multiple_aligned(addr.0 as nat, k, level_size(level));
            lemma_aligned_down((addr.0 + k * level_size(level)) as nat, level);
        },
        _ => {},
    }
}

/// A boundary of larger pages is one of smaller pages.
pub proof fn lemma_aligned_down(x: nat, level: nat)
    requires
        level <= 2,
        x % level_size(level) == 0,
    ensures
        x % level_size(0) == 0,
{
    lemma_level_sizes();
    if level == 1 {
        assert(x % 0x20_0000 == 0);
        assert(x % 0x1000 == 0);
    } else if level == 2 {
        assert(x % 0x4000_0000 == 0);
        assert(x % 0x1000 == 0);
    }
}

/// The addresses that share an entry with a page boundary are those of its page.
pub proof fn lemma_page_region(x: nat, va: nat, level: nat)
    requires
        level <= 2,
        va % level_size(level) == 0,
    ensures
        same_region(x, va, level) <==> va <= x < va + level_size(level),
        va <= x < va + level_size(level) ==> x % level_size(level) == x - va,
{
    lemma_level_sizes();
    if level == 0 {
        assert(x / 0x1000 == va / 0x1000 <==> va <= x < va + 0x1000);
    } else if level == 1 {
        assert(x / 0x20_0000 == va / 0x20_0000 <==> va <= x < va + 0x20_0000);
    } else {
        assert(x / 0x4000_0000 == va / 0x4000_0000 <==> va <= x < va + 0x4000_0000);
    }
}

/// One more page mapped makes the mapped range one page longer.
pub proof fn lemma_map_step(
    table: PageTable,
    v: PagesView,
    before: PageTable,
    w: PagesView,
    after: PageTable,
    w2: PagesView,
    start: nat,
    va: VirtAddr,
    end: nat,
    pa: MapTarget,
    perm: PtEntryFlags,
    level: nat,
    n: nat,
    r: Result<(), KernelError>,
)
    requires
        level <= 2,
        v.wf(),
        w.wf(),
        table.wf(v),
        before.wf(w),
        took(v, w, n),
        start <= va.0 < end <= VA_MAX,
        va.0 + level_size(level) <= end,
        va.0 as nat % level_size(level) == 0,
        start % level_size(level) == 0,
        pa is AllocatedAddr ==> level == 0,
        pa.has_room(end - start),
        table.can_map(start, end, pa, level),
        mapped_range(table, v, before, w, start, va.0 as nat, pa, perm, level),
        mapped_page(before, w, after, w2, level, va, pa.plus(va.0 - start), perm, r),
        grown_near(table, before, start, va.0 as nat, level),
        forall|x: nat|
            start <= x < va.0 && table.slot_at(x).leaf is None ==> (#[trigger] before.slot_at(
                x,
            )).level == level,
        forall|p: nat|
            v.is_page(p) ==> #[trigger] before.spare(w, p) == table.spare(v, p) - taken_multiples(
                start,
                va.0 as nat,
                pa,
                level,
                p,
            ),
    ensures
        ({
            let reached: nat = if r is Ok {
                (va.0 + level_size(level)) as nat
            } else {
                va.0 as nat
            };
            &&& mapped_range(table, v, after, w2, start, reached, pa, perm, level)
            &&& grown_near(
                table,
                after,
                start,
                if r is Ok {
                    reached
                } else {
                    reached + 1
                },
                level,
            )
            &&& forall|x: nat|
                start <= x < reached && table.slot_at(x).leaf is None ==> (#[trigger] after.slot_at(
                    x,
                )).level == level
            &&& forall|p: nat|
                v.is_page(p) ==> #[trigger] after.spare(w2, p) == table.spare(v, p)
                    - taken_multiples(start, reached, pa, level, p)
        }),
{
    let cur = va.0 as nat;
    let ps = level_size(level);
    let here = before.slot_at(cur);
    let tables = missing_tables(here, level);
    let reached: nat = if r is Ok {
        cur + ps
    } else {
        cur
    };
    lemma_path_to_slot(table.0.entries@, 2, cur, v);
    assert(here.leaf == table.slot_at(cur).leaf);
    assert forall|x: nat| cur <= x < cur + ps implies {
        &&& (#[trigger] table.slot_at(x)).leaf is Some <==> table.slot_at(cur).leaf is Some
        &&& table.slot_at(x).leaf is Some ==> table.slot_at(x).leaf == table.slot_at(cur).leaf
    } by {
        lemma_page_region(x, cur, level);
        if table.slot_at(cur).leaf is Some {
            assert(table.slot_at(cur).level == level);
        }
        lemma_region_up(x, cur, level, table.slot_at(cur).level);
        lemma_slot_region(table.0.entries@, 2, cur, x, v);
    }
    assert forall|x: nat| x <= VA_MAX implies {
        let old_slot = table.slot_at(x);
        let new_slot = #[trigger] after.slot_at(x);
        if start <= x < reached && old_slot.leaf is None {
            &&& new_slot.leaf matches Some(leaf)
            &&& leaf.flags == perm.valid()
            &&& new_slot.level == level
            &&& match pa {
                MapTarget::FixedAddr { addr } => translate(new_slot, x) == addr.0 + (x - start),
                MapTarget::AllocatedAddr { .. } => {
                    &&& v.free.contains(leaf.pa.0)
                    &&& w2.count(leaf.pa.0 as nat) == 1
                    &&& w2.page_bytes(leaf.pa.0 as nat) == Seq::new(4096, |i: int| pa.fill())
                },
            }
        } else {
            &&& new_slot.leaf == old_slot.leaf
            &&& start <= x < reached ==> old_slot.leaf->0.flags.perm() == perm
            &&& new_slot == old_slot || (old_slot.leaf is None && level <= new_slot.level
                <= old_slot.level)
        }
    } by {
        lemma_page_region(x, cur, level);
        let mid = before.slot_at(x);
        if start <= x < cur && table.slot_at(x).leaf is None {
            assert(mid.level == level);
            assert(after.slot_at(x).leaf == mid.leaf);
            if pa is AllocatedAddr {
                let leaf = mid.leaf->0;
                let i = v.free.index_of(leaf.pa.0);
                assert(v.is_page(v.free[i] as nat));
                assert(w.count(leaf.pa.0 as nat) == 1);
                assert(w2.count(leaf.pa.0 as nat) == 1);
            }
        } else if cur <= x < reached && table.slot_at(x).leaf is None {
            if pa is AllocatedAddr {
                assert(w.free[tables as int] == v.free[(n + tables) as int]);
            }
        }
    }
    lemma_level_sizes();
    let stop: nat = if r is Ok {
        reached
    } else {
        reached + 1
    };
    assert forall|x: nat|
        x <= VA_MAX && (#[trigger] after.slot_at(x)).leaf is None && after.slot_at(x)
            != table.slot_at(x) implies {
        &&& level <= after.slot_at(x).level <= table.slot_at(x).level
        &&& exists|y: nat|
            start <= y < stop && #[trigger] same_region(x, y, after.slot_at(x).level + 1)
    } by {
        let mid = before.slot_at(x);
        assert(mid.leaf is None);
        if after.slot_at(x) != mid {
            assert(same_region(x, cur, after.slot_at(x).level + 1));
        } else {
            let y = choose|y: nat|
                start <= y < cur && #[trigger] same_region(x, y, mid.level + 1);
            assert(same_region(x, y, after.slot_at(x).level + 1));
        }
    }
    assert forall|p: nat| v.is_page(p) implies #[trigger] after.spare(w2, p) == table.spare(v, p)
        - taken_multiples(start, reached, pa, level, p) by {
        assert(w.is_page(p));
        assert(before.spare(w, p) == table.spare(v, p) - taken_multiples(start, cur, pa, level, p));
        match pa {
            MapTarget::FixedAddr { addr } => {
                lemma_level_sizes();
                lemma_next_multiple((p - addr.0) as int, (cur - start) as int, level, start, cur);
                assert(here.leaf is None);
                assert(pa.plus(cur - start) == MapTarget::FixedAddr {
                    addr: PhysAddr((addr.0 + (cur - start)) as u64),
                });
                let page = (addr.0 + (cur - start)) as u64;
                assert(after.spare(w2, p) == before.spare(w, p) - if r is Ok && page == p {
                    1int
                } else {
                    0
                });
            },
            _ => {},
        }
    }
}

/// Between two neighbouring page boundaries lies no other.
proof fn lemma_next_multiple(d: int, done: int, level: nat, start: nat, cur: nat)
    requires
        level <= 2,
        start % level_size(level) == 0,
        cur % level_size(level) == 0,
        done == cur - start,
    ensures
        done <= d < done + level_size(level) ==> (d % level_size(level) as int == 0 <==> d == done),
{
    lemma_level_sizes();
    if level == 0 {
        assert(start % 0x1000 == 0 && cur % 0x1000 == 0);
        assert(done <= d < done + 0x1000 ==> (d % 0x1000 == 0 <==> d == done));
    } else if level == 1 {
        assert(start % 0x20_0000 == 0 && cur % 0x20_0000 == 0);
        assert(done <= d < done + 0x20_0000 ==> (d % 0x20_0000 == 0 <==> d == done));
    } else {
        assert(start % 0x4000_0000 == 0 && cur % 0x4000_0000 == 0);
        assert(done <= d < done + 0x4000_0000 ==> (d % 0x4000_0000 == 0 <==> d == done));
    }
}

/// The pages that are taken over are those on the page boundaries.
pub proof fn lemma_taken_over(
    table: PageTable,
    v: PagesView,
    after: PageTable,
    w: PagesView,
    start: nat,
    end: nat,
    pa: MapTarget,
    perm: PtEntryFlags,
    level: nat,
)
    requires
        level <= 2,
        start <= end <= VA_MAX,
        start % level_size(level) == 0,
        mapped_range(table, v, after, w, start, end, pa, perm, level),
        forall|x: nat|
            start <= x < end && table.slot_at(x).leaf is None ==> (#[trigger] after.slot_at(
                x,
            )).level == level,
        pa.is_new() ==> forall|x: nat|
            start <= x < end ==> (#[trigger] table.slot_at(x)).leaf is None,
    ensures
        forall|p: nat|
            taken_over(after, start, end, pa, p) == #[trigger] taken_multiples(
                start,
                end,
                pa,
                level,
                p,
            ),
{
    assert forall|p: nat| taken_over(after, start, end, pa, p) == #[trigger] taken_multiples(
        start,
        end,
        pa,
        level,
        p,
    ) by {
        match pa {
            MapTarget::FixedAddr { addr } => {
                if addr.0 <= p < addr.0 + (end - start) {
                    let x = (start + (p - addr.0)) as nat;
                    assert(table.slot_at(x).leaf is None);
                    assert(after.slot_at(x).level == level);
                    lemma_shifted((p - addr.0) as nat, start, level);
                    lemma_level_sizes();
                    vstd::arithmetic::div_mod::lemma_mod_bound(x as int, level_size(level) as int);
                    assert(translate(after.slot_at(x), x) == p);
                }
            },
            _ => {},
        }
    }
}

/// Moving by whole pages does not change the place within a page.
proof fn lemma_shifted(d: nat, start: nat, level: nat)
    requires
        level <= 2,
        start % level_size(level) == 0,
    ensures
        (start + d) % level_size(level) == d % level_size(level),
{
    lemma_level_sizes();
    vstd::arithmetic::div_mod::lemma_add_mod_noop(
        start as int,
        d as int,
        level_size(level) as int,
    );
    vstd::arithmetic::div_mod::lemma_mod_twice(d as int, level_size(level) as int);
}

/// Whether an address is to be mapped by a large page: it lies in one that the
/// range and its target have whole.
pub open spec fn in_large_page(start: nat, end: nat, pa: MapTarget, x: nat) -> bool {
    &&& pa matches MapTarget::FixedAddr { addr }
    &&& start % level_size(1) == addr.0 as nat % level_size(1)
    &&& round_up(start, level_size(1)) <= x < round_down(end, level_size(1))
}

/// The level of the page by which an address is to be mapped.
pub open spec fn map_level(start: nat, end: nat, pa: MapTarget, x: nat) -> nat {
    if in_large_page(start, end, pa, x) {
        1
    } else {
        0
    }
}

/// The levels of the pages by which addresses are to be mapped.
pub open spec fn map_levels(start: nat, end: nat, pa: MapTarget) -> spec_fn(nat) -> nat {
    |x: nat| map_level(start, end, pa, x)
}

/// Mapping two neighbouring ranges to neighbouring addresses maps the whole range.
pub proof fn lemma_join(
    t0: PageTable,
    v0: PagesView,
    t1: PageTable,
    v1: PagesView,
    t2: PageTable,
    v2: PagesView,
    a: nat,
    b: nat,
    c: nat,
    pa: MapTarget,
    perm: PtEntryFlags,
    level1: nat,
    level2: nat,
)
    requires
        pa is FixedAddr,
        pa.has_room(c - a),
        a <= b <= c <= VA_MAX,
        v1.same_heap(v0),
        mapped_range(t0, v0, t1, v1, a, b, pa, perm, level1),
        mapped_range(t1, v1, t2, v2, b, c, pa.plus(b - a), perm, level2),
        forall|p: nat|
            v0.is_page(p) ==> #[trigger] t1.spare(v1, p) == t0.spare(v0, p) - taken_over(
                t1,
                a,
                b,
                pa,
                p,
            ),
        forall|p: nat|
            v1.is_page(p) ==> #[trigger] t2.spare(v2, p) == t1.spare(v1, p) - taken_over(
                t2,
                b,
                c,
                pa.plus(b - a),
                p,
            ),
        forall|x: nat| a <= x < c ==> (#[trigger] t0.slot_at(x)).leaf is None,
    ensures
        mapped_range(t0, v0, t2, v2, a, c, pa, perm, 0),
        forall|x: nat| a <= x < b ==> (#[trigger] t2.slot_at(x)) == t1.slot_at(x),
        forall|p: nat|
            v0.is_page(p) ==> #[trigger] t2.spare(v2, p) == t0.spare(v0, p) - taken_over(
                t2,
                a,
                c,
                pa,
                p,
            ),
{
    assert forall|x: nat| x <= VA_MAX implies {
        let before = t0.slot_at(x);
        let mid = t1.slot_at(x);
        let after = #[trigger] t2.slot_at(x);
        &&& if a <= x < c {
            &&& after.leaf matches Some(leaf)
            &&& leaf.flags == perm.valid()
            &&& translate(after, x) == pa->addr.0 + (x - a)
        } else {
            &&& after.leaf == before.leaf
            &&& after == before || (before.leaf is None && after.level <= before.level)
        }
        &&& a <= x < b ==> after == mid
    } by {
        let mid = t1.slot_at(x);
        if a <= x < b {
            assert(t0.slot_at(x).leaf is None);
            assert(mid.leaf is Some);
        } else if b <= x < c {
            assert(t0.slot_at(x).leaf is None);
            assert(mid.leaf is None);
        }
    }
    assert forall|p: nat| v0.is_page(p) implies #[trigger] t2.spare(v2, p) == t0.spare(v0, p)
        - taken_over(t2, a, c, pa, p) by {
        assert(v1.is_page(p));
        let addr = pa->addr.0;
        assert(t1.spare(v1, p) == t0.spare(v0, p) - taken_over(t1, a, b, pa, p));
        if addr <= p < addr + (b - a) {
            let x = (a + (p - addr)) as nat;
            assert(t2.slot_at(x) == t1.slot_at(x));
        }
        assert(b + (p - (addr + (b - a))) == a + (p - addr));
    }
}

/// Whether a new table maps the addresses from `start` up to `reached` as asked
/// for, the others as the old one, and the outcome fits with that.
pub open spec fn mapped_addrs(
    old_table: PageTable,
    v: PagesView,
    table: PageTable,
    w: PagesView,
    start: nat,
    end: nat,
    pa: MapTarget,
    perm: PtEntryFlags,
    reached: nat,
    r: Result<(), KernelError>,
) -> bool {
    &&& start <= reached <= end
    &&& reached % level_size(map_level(start, end, pa, reached)) == 0
    &&& mapped_range(old_table, v, table, w, start, reached, pa, perm, 0)
    &&& mapped_result(old_table, v, w, reached, end, perm, r)
    &&& took_for(
        old_table,
        v,
        w,
        start,
        reached,
        map_levels(start, end, pa),
        pa is AllocatedAddr,
        r,
    )
    &&& forall|x: nat|
        start <= x < reached && old_table.slot_at(x).leaf is None ==> (#[trigger] table.slot_at(
            x,
        )).level == map_level(start, end, pa, x)
    &&& forall|p: nat|
        v.is_page(p) ==> #[trigger] table.spare(w, p) == old_table.spare(v, p) - taken_over(
            table,
            start,
            reached,
            pa,
            p,
        )
}

proof fn lemma_large_before(a: nat, b: nat, piece: nat, x: nat)
    requires
        a % 0x20_0000 == 0,
        x % 0x20_0000 == 0,
        a < x <= b,
        piece < x,
        piece >= a ==> piece % 0x20_0000 == 0,
    ensures
        a <= x - 0x20_0000,
        piece <= x - 0x20_0000,
        (x - 0x20_0000) % 0x20_0000 == 0,
{
}

proof fn lemma_small_before(a: nat, b: nat, piece: nat, x: nat)
    requires
        a % 0x20_0000 == 0,
        b % 0x20_0000 == 0,
        x % 0x1000 == 0,
        piece % 0x1000 == 0,
        piece < x,
        !(a <= x - 1 < b),
    ensures
        piece <= x - 0x1000,
        !(a <= x - 0x1000 < b),
        (x - 0x1000) % 0x1000 == 0,
{
}

/// The piece before a place where one ends begins behind each of those before it, or is
/// it.
proof fn lemma_piece_before(start: nat, end: nat, pa: MapTarget, piece: nat, x: nat)
    requires
        start <= piece < x <= end,
        piece % level_size(map_level(start, end, pa, piece)) == 0,
        x % level_size(map_level(start, end, pa, x)) == 0,
    ensures
        ({
            let level = map_level(start, end, pa, (x - 1) as nat);
            let y = x - level_size(level);
            &&& piece <= y
            &&& map_level(start, end, pa, y as nat) == level
            &&& y as nat % level_size(level) == 0
        }),
{
    lemma_level_sizes();
    lemma_round(start, 0x20_0000);
    lemma_round(end, 0x20_0000);
    let a = round_up(start, 0x20_0000);
    let b = round_down(end, 0x20_0000);
    if in_large_page(start, end, pa, (x - 1) as nat) {
        assert(piece >= a ==> in_large_page(start, end, pa, piece));
        assert(x < b ==> in_large_page(start, end, pa, x));
        lemma_large_before(a, b, piece, x);
    } else {
        assert(x % 0x1000 == 0) by {
            assert(x % 0x20_0000 == 0 || x % 0x1000 == 0);
        }
        assert(piece % 0x1000 == 0) by {
            assert(piece % 0x20_0000 == 0 || piece % 0x1000 == 0);
        }
        if a <= x - 1 < b {
            assert(!in_large_page(start, end, pa, (x - 0x1000) as nat));
        } else {
            lemma_small_before(a, b, piece, x);
        }
    }
}

/// What it takes to map a piece is part of what it takes to map the addresses up to any
/// place behind it where a piece begins or ends.
proof fn lemma_needs_within(
    table: PageTable,
    start: nat,
    end: nat,
    pa: MapTarget,
    fresh: bool,
    piece: nat,
    x: nat,
)
    requires
        start <= piece < x <= end,
        piece % level_size(map_level(start, end, pa, piece)) == 0,
        x % level_size(map_level(start, end, pa, x)) == 0,
    ensures
        needs_to(table, start, piece, map_levels(start, end, pa), fresh) + piece_needs(
            table.slot_at(piece),
            start,
            piece,
            map_level(start, end, pa, piece),
            fresh,
        ) <= needs_to(table, start, x, map_levels(start, end, pa), fresh),
    decreases x - piece,
{
    let level = map_level(start, end, pa, (x - 1) as nat);
    let y = (x - level_size(level)) as nat;
    lemma_piece_before(start, end, pa, piece, x);
    assert(level_size(level) > 0) by {
        lemma_level_sizes();
    }
    if piece < y {
        lemma_needs_within(table, start, end, pa, fresh, piece, y);
    }
}

/// Mapping does not run out of memory where there are as many free pages as it takes to
/// map all addresses.
pub proof fn law_enough_to_map(
    old_table: PageTable,
    v: PagesView,
    table: PageTable,
    w: PagesView,
    start: nat,
    end: nat,
    pa: MapTarget,
    perm: PtEntryFlags,
    reached: nat,
    r: Result<(), KernelError>,
)
    requires
        end % 4096 == 0,
        mapped_addrs(old_table, v, table, w, start, end, pa, perm, reached, r),
        needs_to(old_table, start, end, map_levels(start, end, pa), pa is AllocatedAddr)
            <= v.free.len(),
    ensures
        r != Err::<(), KernelError>(KernelError::NoFreePage),
{
    lemma_level_sizes();
    lemma_round(end, 0x20_0000);
    if reached < end {
        lemma_needs_within(old_table, start, end, pa, pa is AllocatedAddr, reached, end);
    }
}

/// An address below a large page boundary and one above it share no large page.
pub proof fn lemma_apart(x: nat, y: nat, boundary: nat)
    requires
        boundary % level_size(1) == 0,
        y < boundary <= x,
    ensures
        !same_region(x, y, 1),
{
    lemma_level_sizes();
    assert(boundary % 0x20_0000 == 0);
    assert(x / 0x20_0000 != y / 0x20_0000);
}

/// Where the large pages of a range lie.
pub proof fn lemma_large_pieces(start: nat, end: nat, a: nat, b: nat, pa: MapTarget)
    requires
        start <= end <= VA_MAX,
        start % 4096 == 0,
        end % 4096 == 0,
        a == round_up(start, 0x20_0000),
        b == round_down(end, 0x20_0000),
        a < b,
        pa matches MapTarget::FixedAddr { addr } && addr.0 as nat % 0x20_0000 == start % 0x20_0000,
        pa.has_room(end - start),
    ensures
        start <= a < b <= end,
        a % level_size(1) == 0,
        b % level_size(1) == 0,
        a % 4096 == 0,
        b % 4096 == 0,
        (a - start) as nat % 4096 == 0,
        (b - a) as nat % level_size(1) == 0,
        (end - b) as nat % 4096 == 0,
        pa.plus(a - start).aligned(1),
        pa.plus(a - start).aligned(0),
        pa.plus(b - start).aligned(0),
{
    lemma_level_sizes();
    let p = pa->addr.0 as nat;
    assert(start <= a && b <= end && a % 0x20_0000 == 0 && b % 0x20_0000 == 0) by {
        lemma_round(start, 0x20_0000);
        lemma_round(end, 0x20_0000);
    }
    lemma_large_multiple(a);
    lemma_large_multiple(b);
    lemma_multiples_apart(a, b);
    lemma_shifted_target(p, start, a);
    lemma_large_multiple((p + (a - start)) as nat);
    lemma_small_shift(p, start, b);
    assert((a - start) as nat % 4096 == 0);
    assert((end - b) as nat % 4096 == 0);
}

proof fn lemma_large_multiple(x: nat)
    requires
        x % 0x20_0000 == 0,
    ensures
        x % 4096 == 0,
{
}

proof fn lemma_multiples_apart(a: nat, b: nat)
    requires
        a <= b,
        a % 0x20_0000 == 0,
        b % 0x20_0000 == 0,
    ensures
        (b - a) as nat % 0x20_0000 == 0,
{
}

proof fn lemma_shifted_target(p: nat, start: nat, a: nat)
    requires
        start <= a,
        a % 0x20_0000 == 0,
        p % 0x20_0000 == start % 0x20_0000,
    ensures
        (p + (a - start)) % 0x20_0000 == 0,
{
}

proof fn lemma_small_shift(p: nat, start: nat, b: nat)
    requires
        start <= b,
        b % 4096 == 0,
        p % 0x20_0000 == start % 0x20_0000,
    ensures
        (p + (b - start)) % 4096 == 0,
{
    assert(p % 4096 == start % 4096);
}

/// The levels of the addresses of a range with large pages in the middle.
pub proof fn lemma_large_levels(start: nat, end: nat, pa: MapTarget, a: nat, b: nat)
    requires
        pa matches MapTarget::FixedAddr { addr } && addr.0 as nat % 0x20_0000 == start % 0x20_0000,
        a == round_up(start, 0x20_0000),
        b == round_down(end, 0x20_0000),
    ensures
        forall|x: nat|
            #[trigger] map_levels(start, end, pa)(x) == (if a <= x < b {
                1nat
            } else {
                0
            }),
{
    lemma_level_sizes();
}

} // verus!
