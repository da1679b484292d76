//! What mapping, sharing, writing and unmapping mean for what addresses can be used for.
use super::super::addr::{
    idx_at, law_rounding, lemma_round, round_down, round_up, VirtAddr, VirtAddrBounds, VA_MAX,
};
use super::super::page_manager::PagesView;
use super::super::{level_size, lemma_level_sizes};
use super::access::lemma_entry_base;
use super::cloning::cloned;
use super::entry::{flag_bit, PtEntryFlags};
use super::range::{mapped_addrs, translate};
use super::sharing::{entry_touched, unmapped};
use super::tree::{
    entry_wf, lemma_path_to_slot, lemma_slot_region, same_region, slot, slot_of_entry, LeafPage,
    PtEntry, Slot,
};
use super::writing::{lemma_own_copy, user_write};
use super::{MapTarget, PageTable};
use crate::error::KernelError;
use vstd::prelude::*;

verus! {

/// Sharing a page takes away no permission but the one to write, which comes back with the
/// copy that is made before the next write. What could not be written still cannot be.
pub proof fn law_shared_flags(f: PtEntryFlags)
    ensures
        f.shared().v == f.v,
        f.shared().r == f.r,
        f.shared().x == f.x,
        f.shared().u == f.u,
        f.shared().g == f.g,
        f.shared().a == f.a,
        f.shared().d == f.d,
        !f.shared().w,
        f.shared().c <==> f.w || f.c,
        f.w && !f.c ==> f.shared().owned() == f,
        !f.w && !f.c ==> f.shared() == f,
        f.shared().shared() == f.shared(),
        f.shared().effective().perm() == f.effective().perm(),
{
}

/// The owner of a page may write to it; all else is as before.
pub proof fn law_owned_flags(f: PtEntryFlags)
    ensures
        f.owned().w,
        !f.owned().c,
        f.owned().v == f.v,
        f.owned().r == f.r,
        f.owned().x == f.x,
        f.owned().u == f.u,
        f.owned().g == f.g,
        f.owned().a == f.a,
        f.owned().d == f.d,
{
}

/// What flags allow, what their permissions are, and what makes them valid, each in terms
/// of the single flags.
pub proof fn law_flags_derived(f: PtEntryFlags)
    ensures
        f.effective().w <==> f.w || f.c,
        f.effective() == (PtEntryFlags { w: f.effective().w, ..f }),
        f.perm().r == f.r && f.perm().w == f.w && f.perm().x == f.x && f.perm().u == f.u,
        !f.perm().v && !f.perm().g && !f.perm().a && !f.perm().d && !f.perm().c,
        f.valid().v,
        f.valid() == (PtEntryFlags { v: true, ..f }),
        f.accessible() <==> f.perm().r || f.perm().w || f.perm().x,
{
}

/// Flags are ordered by what they contain: each contains itself, what contains each other
/// is the same, and what contains one that contains a third contains the third.
pub proof fn law_contained_flags(f: PtEntryFlags, g: PtEntryFlags, h: PtEntryFlags)
    ensures
        f.has(f),
        f.has(g) && g.has(f) ==> f == g,
        f.has(g) && g.has(h) ==> f.has(h),
        f.valid().has(f),
        f.effective().has(f),
        f.has(f.perm()),
{
}

/// A bit of a number: what is below it is less than its weight.
proof fn lemma_bit(n: nat, weight: nat, below: nat, bit: nat, above: nat)
    requires
        below < weight,
        bit <= 1,
        n == below + weight * bit + weight * (2 * above),
    ensures
        (n / weight) % 2 == bit,
{
    let m = bit + 2 * above;
    assert(n == m * weight + below) by (nonlinear_arith)
        requires
            n == below + weight * bit + weight * (2 * above),
            m == bit + 2 * above,
    ;
    vstd::arithmetic::div_mod::lemma_fundamental_div_mod_converse(
        n as int,
        weight as int,
        m as int,
        below as int,
    );
}

/// What a flag adds to a number is its weight or nothing.
proof fn lemma_flag_bit(on: bool, weight: nat)
    ensures
        flag_bit(on, weight) == weight * flag_bit(on, 1),
        flag_bit(on, 1) <= 1,
        on <==> flag_bit(on, 1) == 1,
{
    assert(weight * 1 == weight && weight * 0 == 0) by (nonlinear_arith);
}

/// The bits of a number that nine of them make up.
proof fn lemma_nine_bits(v: nat, r: nat, w: nat, x: nat, u: nat, g: nat, a: nat, d: nat, c: nat, n: nat)
    requires
        v <= 1,
        r <= 1,
        w <= 1,
        x <= 1,
        u <= 1,
        g <= 1,
        a <= 1,
        d <= 1,
        c <= 1,
        n == v + 2 * r + 4 * w + 8 * x + 16 * u + 32 * g + 64 * a + 128 * d + 256 * c,
    ensures
        n < 0x200,
        n % 2 == v,
        n / 2 % 2 == r,
        n / 4 % 2 == w,
        n / 8 % 2 == x,
        n / 16 % 2 == u,
        n / 32 % 2 == g,
        n / 64 % 2 == a,
        n / 128 % 2 == d,
        n / 256 % 2 == c,
{
    let a7 = c;
    let a6 = d + 2 * a7;
    let a5 = a + 2 * a6;
    let a4 = g + 2 * a5;
    let a3 = u + 2 * a4;
    let a2 = x + 2 * a3;
    let a1 = w + 2 * a2;
    let a0 = r + 2 * a1;
    let b1 = v + 2 * r;
    let b2 = b1 + 4 * w;
    let b3 = b2 + 8 * x;
    let b4 = b3 + 16 * u;
    let b5 = b4 + 32 * g;
    let b6 = b5 + 64 * a;
    let b7 = b6 + 128 * d;
    lemma_bit(n, 1, 0, v, a0);
    lemma_bit(n, 2, v, r, a1);
    lemma_bit(n, 4, b1, w, a2);
    lemma_bit(n, 8, b2, x, a3);
    lemma_bit(n, 16, b3, u, a4);
    lemma_bit(n, 32, b4, g, a5);
    lemma_bit(n, 64, b5, a, a6);
    lemma_bit(n, 128, b6, d, a7);
    lemma_bit(n, 256, b7, c, 0);
    assert(n / 1 == n);
}

/// Each flag has the bit in a page table entry that the machine looks at, and no two sets
/// of flags have the same number.
pub proof fn law_flag_bits(f: PtEntryFlags, g: PtEntryFlags)
    ensures
        f.number() < 0x200,
        f.v <==> f.number() % 2 == 1,
        f.r <==> (f.number() / 2) % 2 == 1,
        f.w <==> (f.number() / 4) % 2 == 1,
        f.x <==> (f.number() / 8) % 2 == 1,
        f.u <==> (f.number() / 16) % 2 == 1,
        f.g <==> (f.number() / 32) % 2 == 1,
        f.a <==> (f.number() / 64) % 2 == 1,
        f.d <==> (f.number() / 128) % 2 == 1,
        f.c <==> (f.number() / 256) % 2 == 1,
        f.number() == g.number() ==> f == g,
{
    lemma_flag_bits(f);
    lemma_flag_bits(g);
}

proof fn lemma_flag_bits(f: PtEntryFlags)
    ensures
        f.number() < 0x200,
        f.v <==> f.number() % 2 == 1,
        f.r <==> (f.number() / 2) % 2 == 1,
        f.w <==> (f.number() / 4) % 2 == 1,
        f.x <==> (f.number() / 8) % 2 == 1,
        f.u <==> (f.number() / 16) % 2 == 1,
        f.g <==> (f.number() / 32) % 2 == 1,
        f.a <==> (f.number() / 64) % 2 == 1,
        f.d <==> (f.number() / 128) % 2 == 1,
        f.c <==> (f.number() / 256) % 2 == 1,
{
    lemma_flag_bit(f.v, 1);
    lemma_flag_bit(f.r, 2);
    lemma_flag_bit(f.w, 4);
    lemma_flag_bit(f.x, 8);
    lemma_flag_bit(f.u, 16);
    lemma_flag_bit(f.g, 32);
    lemma_flag_bit(f.a, 64);
    lemma_flag_bit(f.d, 128);
    lemma_flag_bit(f.c, 256);
    lemma_nine_bits(
        flag_bit(f.v, 1),
        flag_bit(f.r, 1),
        flag_bit(f.w, 1),
        flag_bit(f.x, 1),
        flag_bit(f.u, 1),
        flag_bit(f.g, 1),
        flag_bit(f.a, 1),
        flag_bit(f.d, 1),
        flag_bit(f.c, 1),
        f.number(),
    );
}

/// An address is looked up by its 27 bits above the place in a page, nine for each level,
/// from the highest one down, until an entry is found that leads to no further table.
pub proof fn law_lookup_by_index(table: PageTable, v: PagesView, x: nat)
    requires
        table.wf(v),
        x < 0x80_0000_0000,
    ensures
        idx_at(x, 0) == x / 0x1000 % 512,
        idx_at(x, 1) == x / 0x20_0000 % 512,
        idx_at(x, 2) == x / 0x4000_0000 % 512,
        ({
            let top = table.0.entries@[(x / 0x4000_0000) as int];
            match top {
                PtEntry::Invalid => table.slot_at(x) == (Slot { level: 2, leaf: None }),
                PtEntry::Leaf { pa, flags } => table.slot_at(x) == (Slot {
                    level: 2,
                    leaf: Some(LeafPage { pa, flags }),
                }),
                PtEntry::Table { table: mid } => match mid.entries@[(x / 0x20_0000 % 512) as int] {
                    PtEntry::Invalid => table.slot_at(x) == (Slot { level: 1, leaf: None }),
                    PtEntry::Leaf { pa, flags } => table.slot_at(x) == (Slot {
                        level: 1,
                        leaf: Some(LeafPage { pa, flags }),
                    }),
                    PtEntry::Table { table: low } => match low.entries@[(x / 0x1000
                        % 512) as int] {
                        PtEntry::Leaf { pa, flags } => table.slot_at(x) == (Slot {
                            level: 0,
                            leaf: Some(LeafPage { pa, flags }),
                        }),
                        _ => table.slot_at(x) == (Slot { level: 0, leaf: None }),
                    },
                },
            }
        }),
{
    lemma_level_sizes();
    assert(idx_at(x, 2) == x / 0x4000_0000);
    let top = table.0.entries@[idx_at(x, 2) as int];
    assert(table.slot_at(x) == slot_of_entry(top, 2, x));
    assert(entry_wf(top, 2, v));
    if let PtEntry::Table { table: mid } = top {
        let next = mid.entries@[idx_at(x, 1) as int];
        assert(slot_of_entry(top, 2, x) == slot(mid.entries@, 1, x));
        assert(slot(mid.entries@, 1, x) == slot_of_entry(next, 1, x));
        assert(entry_wf(next, 1, v));
        if let PtEntry::Table { table: low } = next {
            let last = low.entries@[idx_at(x, 0) as int];
            assert(slot_of_entry(next, 1, x) == slot(low.entries@, 0, x));
            assert(slot(low.entries@, 0, x) == slot_of_entry(last, 0, x));
        }
    }
}

/// Neighbouring addresses in one page are translated to neighbouring addresses; the first
/// one of a page to where the page lies in memory.
pub proof fn law_translate(table: PageTable, v: PagesView, x: nat, y: nat)
    requires
        table.wf(v),
        table.slot_at(x).leaf is Some,
        x / 4096 == y / 4096,
    ensures
        table.slot_at(y) == table.slot_at(x),
        translate(table.slot_at(y), y) - translate(table.slot_at(x), x) == y - x,
        table.slot_at(x).level == 0 && x % 4096 == 0 ==> translate(table.slot_at(x), x)
            == table.slot_at(x).leaf->0.pa.0,
{
    let level = table.slot_at(x).level;
    lemma_level_sizes();
    lemma_path_to_slot(table.0.entries@, 2, x, v);
    lemma_entry_base(x, level);
    super::tree::lemma_region_up(y, x, 0, level);
    lemma_slot_region(table.0.entries@, 2, x, y, v);
    let size = level_size(level);
    let base = (x - x % size) as nat;
    super::range::lemma_page_region(y, base, level);
    super::range::lemma_page_region(x, base, level);
    lemma_entry_base(y, level);
    assert(same_region(x, y, level));
    let other = (y - y % size) as nat;
    assert(same_region(other, y, level));
    assert(same_region(base, x, level));
    assert(same_region(base, y, level));
    assert(same_region(other, x, level));
}

/// After addresses have been mapped, each of them can be used as was asked for, and all
/// others as before. Where they were to be mapped to given physical addresses, they are
/// translated to these, in their order; where pages were to be allocated, each lies in a
/// page that was free, is used once, and holds zeros if that was asked for.
pub proof fn law_mapped(
    old_table: PageTable,
    v: PagesView,
    table: PageTable,
    w: PagesView,
    start: nat,
    end: nat,
    pa: MapTarget,
    perm: PtEntryFlags,
    reached: nat,
    x: nat,
)
    requires
        mapped_addrs(old_table, v, table, w, start, end, pa, perm, reached, Ok(())),
        x <= VA_MAX,
        v.wf(),
    ensures
        start <= x < end ==> {
            &&& table.slot_at(x).leaf matches Some(leaf)
            &&& leaf.flags.r == perm.r && leaf.flags.w == perm.w && leaf.flags.x == perm.x
                && leaf.flags.u == perm.u || old_table.slot_at(x).leaf is Some
            &&& old_table.slot_at(x).leaf is None ==> {
                &&& leaf.flags == (PtEntryFlags { v: true, ..perm })
                &&& pa matches MapTarget::FixedAddr { addr } ==> translate(table.slot_at(x), x)
                    == addr.0 + (x - start)
                &&& pa matches MapTarget::AllocatedAddr { zeroed, .. } ==> {
                    &&& v.free.contains(leaf.pa.0)
                    &&& v.count(leaf.pa.0 as nat) == 0
                    &&& w.count(leaf.pa.0 as nat) == 1
                    &&& zeroed ==> forall|i: int|
                        0 <= i < 4096 ==> #[trigger] w.page_bytes(leaf.pa.0 as nat)[i] == 0
                }
            }
            &&& old_table.slot_at(x).leaf matches Some(there) ==> {
                &&& leaf == there
                &&& there.flags.r == perm.r && there.flags.w == perm.w && there.flags.x == perm.x
                    && there.flags.u == perm.u
            }
        },
        !(start <= x < end) ==> table.slot_at(x).leaf == old_table.slot_at(x).leaf,
{
    let after = table.slot_at(x);
    if start <= x < end && old_table.slot_at(x).leaf is None && pa is AllocatedAddr {
        let p = after.leaf->0.pa.0;
        assert(v.free.contains(p));
        assert(v.is_page(p as nat)) by {
            let i = v.free.index_of(p);
            assert(v.is_page(v.free[i] as nat));
        }
        assert(v.count(p as nat) == 0);
    }
}

/// After the pages of a range have been shared, both tables map each of them, at the same
/// addresses. The flags that say whether it is valid, readable, executable, accessible
/// from user mode and global are those that the source had; it cannot be written any more,
/// and is copied on the next write if and only if it could be written or was to be copied
/// before. Addresses in the range at which nothing was mapped, and those that share no
/// page with the range, are as before in both tables.
pub proof fn law_shared_pages(
    old_dst: PageTable,
    old_src: PageTable,
    v: PagesView,
    dst: PageTable,
    src: PageTable,
    w: PagesView,
    va_range: VirtAddrBounds,
    flags: PtEntryFlags,
    x: nat,
)
    requires
        old_src.wf(v),
        va_range.nonempty(),
        va_range.in_bounds(),
        cloned(old_dst, old_src, v, dst, src, w, va_range, flags, Ok(())),
        x <= VA_MAX,
    ensures
        va_range.holds(x) && old_src.slot_at(x).leaf is Some ==> {
            let page = old_src.slot_at(x).leaf->0;
            let shared = dst.slot_at(x).leaf->0;
            &&& dst.slot_at(x).leaf is Some
            &&& src.slot_at(x).leaf == dst.slot_at(x).leaf
            &&& dst.slot_at(x).level == old_src.slot_at(x).level
            &&& shared.pa == page.pa
            &&& shared.flags.v == page.flags.v
            &&& shared.flags.r == page.flags.r
            &&& shared.flags.x == page.flags.x
            &&& shared.flags.u == page.flags.u
            &&& shared.flags.g == page.flags.g
            &&& !shared.flags.w
            &&& shared.flags.c <==> page.flags.w || page.flags.c
            &&& page.flags.has(flags)
        },
        old_src.slot_at(x).leaf is None ==> {
            &&& src.slot_at(x).leaf is None
            &&& dst.slot_at(x).leaf == old_dst.slot_at(x).leaf
        },
        (forall|y: nat|
            va_range.holds(y) ==> !#[trigger] same_region(x, y, old_src.slot_at(x).level)) ==> {
            &&& src.slot_at(x).leaf == old_src.slot_at(x).leaf
            &&& dst.slot_at(x).leaf == old_dst.slot_at(x).leaf
        },
{
    let first = va_range.first()->0;
    let last = va_range.last()->0;
    let level = old_src.slot_at(x).level;
    assert(src.slot_at(x) == src.slot_at(x));
    assert(dst.slot_at(x) == dst.slot_at(x));
    if va_range.holds(x) {
        assert(first <= x <= last);
        assert(same_region(x, x, level));
        assert(entry_touched(old_src, x, first, (last + 1) as nat));
    }
    if forall|y: nat| va_range.holds(y) ==> !#[trigger] same_region(x, y, level) {
        assert(!entry_touched(old_src, x, first, (last + 1) as nat)) by {
            if entry_touched(old_src, x, first, (last + 1) as nat) {
                let y = choose|y: nat|
                    first <= y < last + 1 && #[trigger] same_region(x, y, level);
                assert(va_range.holds(y));
            }
        }
    }
}

/// What a request to write to an address comes to.
///
/// A page that can be written to stays as it is. One that is to be copied on the next
/// write can be written to afterwards, with all other flags as before: if nobody else uses
/// it, it is the same page; else it is one that was free, holds the same bytes, and has one
/// user, while the page has one user less. Without a free page, or if the page can neither
/// be written nor is to be copied, the request is refused and nothing changes. What is
/// mapped elsewhere, and what other pages hold, never changes.
pub proof fn law_write_request(
    old_table: PageTable,
    v: PagesView,
    table: PageTable,
    w: PagesView,
    va: VirtAddr,
    r: Result<(), KernelError>,
    x: nat,
    p: nat,
)
    requires
        v.wf(),
        old_table.wf(v),
        va.0 <= VA_MAX,
        x <= VA_MAX,
        v.is_page(p),
        super::writing::copyable(old_table.slot_at(va.0 as nat), v),
        user_write(old_table, v, table, w, va, r),
    ensures
        old_table.slot_at(va.0 as nat).leaf is None ==> r == Err::<(), KernelError>(
            KernelError::VirtualPageNotMapped(va),
        ),
        old_table.slot_at(va.0 as nat).leaf matches Some(page) ==> {
            let pa = page.pa.0 as nat;
            let now = table.slot_at(va.0 as nat).leaf->0;
            &&& page.flags.w ==> r is Ok && now == page && w == v
            &&& !page.flags.w && !page.flags.c ==> {
                &&& r == Err::<(), KernelError>(KernelError::InaccessiblePage(va))
                &&& now == page
                &&& w == v
            }
            &&& !page.flags.w && page.flags.c && v.count(pa) == 1 ==> {
                &&& r is Ok
                &&& now.pa == page.pa
                &&& now.flags == (PtEntryFlags { w: true, c: false, ..page.flags })
                &&& w == v
            }
            &&& !page.flags.w && page.flags.c && v.count(pa) != 1 && v.free.len() == 0 ==> {
                &&& r == Err::<(), KernelError>(KernelError::NoFreePage)
                &&& now == page
                &&& w == v
            }
            &&& !page.flags.w && page.flags.c && 1 < v.count(pa) < u32::MAX && v.free.len() > 0
                ==> {
                &&& r is Ok
                &&& now.pa != page.pa
                &&& v.is_page(now.pa.0 as nat)
                &&& v.count(now.pa.0 as nat) == 0
                &&& w.count(now.pa.0 as nat) == 1
                &&& w.count(pa) == v.count(pa) - 1
                &&& w.page_bytes(now.pa.0 as nat) == v.page_bytes(pa)
                &&& now.flags == (PtEntryFlags { w: true, c: false, ..page.flags })
            }
            &&& r is Ok ==> now.flags.w
            &&& v.count(p) > 0 ==> w.page_bytes(p) == v.page_bytes(p)
            &&& v.count(p) > 0 && p != pa ==> w.count(p) == v.count(p)
        },
        !same_region(x, va.0 as nat, old_table.slot_at(va.0 as nat).level) || r is Err
            ==> table.slot_at(x) == old_table.slot_at(x),
{
    reveal(user_write);
    let a = va.0 as nat;
    let at = old_table.slot_at(a);
    assert(table.slot_at(a) == table.slot_at(a));
    assert(same_region(a, a, at.level));
    if x <= VA_MAX && same_region(x, a, at.level) {
        lemma_path_to_slot(old_table.0.entries@, 2, a, v);
        lemma_slot_region(old_table.0.entries@, 2, a, x, v);
    }
    if at.leaf is Some {
        let page = at.leaf->0;
        let pa = page.pa.0 as nat;
        if !page.flags.w && page.flags.c && v.count(pa) != 1 && v.free.len() > 0 {
            lemma_own_copy(v, pa);
            let new = v.free[0] as nat;
            assert(v.free.contains(v.free[0]));
            assert(v.count(new) == 0);
            use_budgets(v, w, new);
            use_budgets(v, w, pa);
            use_budgets(v, w, p);
        }
    }
}

/// How the number of users follows from the budget.
proof fn use_budgets(v: PagesView, w: PagesView, p: nat)
    ensures
        super::tree::budget(w, p) == (if w.count(p) == u32::MAX {
            1nat
        } else {
            w.count(p) as nat
        }),
        super::tree::budget(v, p) == (if v.count(p) == u32::MAX {
            1nat
        } else {
            v.count(p) as nat
        }),
{
}

/// A page that has been shared and could be written before can be written again after a
/// request to do so, by either table, with exactly the flags that it had. One that could
/// not be written cannot be written after it was shared either.
pub proof fn law_shared_then_written(
    old_dst: PageTable,
    old_src: PageTable,
    v: PagesView,
    dst: PageTable,
    src: PageTable,
    w: PagesView,
    va_range: VirtAddrBounds,
    flags: PtEntryFlags,
    by_dst: bool,
    va: VirtAddr,
    table: PageTable,
    w2: PagesView,
    r: Result<(), KernelError>,
)
    requires
        old_src.wf(v),
        va_range.nonempty(),
        va_range.in_bounds(),
        cloned(old_dst, old_src, v, dst, src, w, va_range, flags, Ok(())),
        va_range.holds(va.0 as nat),
        va.0 <= VA_MAX,
        old_src.slot_at(va.0 as nat).leaf is Some,
        !old_src.slot_at(va.0 as nat).leaf->0.flags.c,
        user_write(
            if by_dst {
                dst
            } else {
                src
            },
            w,
            table,
            w2,
            va,
            r,
        ),
    ensures
        old_src.slot_at(va.0 as nat).leaf->0.flags.w && r is Ok ==> {
            &&& table.slot_at(va.0 as nat).leaf is Some
            &&& table.slot_at(va.0 as nat).leaf->0.flags == old_src.slot_at(
                va.0 as nat,
            ).leaf->0.flags
        },
        old_src.slot_at(va.0 as nat).leaf->0.flags.w && r is Err ==> r == Err::<(), KernelError>(
            KernelError::NoFreePage,
        ) && w.free.len() == 0,
        !old_src.slot_at(va.0 as nat).leaf->0.flags.w ==> r == Err::<(), KernelError>(
            KernelError::InaccessiblePage(va),
        ),
{
    reveal(user_write);
    let a = va.0 as nat;
    law_shared_pages(old_dst, old_src, v, dst, src, w, va_range, flags, a);
    let before = if by_dst {
        dst
    } else {
        src
    };
    assert(before.slot_at(a) == before.slot_at(a));
    assert(dst.slot_at(a) == dst.slot_at(a));
    assert(src.slot_at(a) == src.slot_at(a));
    assert(same_region(a, a, before.slot_at(a).level));
    assert(table.slot_at(a) == table.slot_at(a));
    let first = va_range.first()->0;
    let last = va_range.last()->0;
    assert(same_region(a, a, old_src.slot_at(a).level));
    assert(entry_touched(old_src, a, first, (last + 1) as nat));
    law_shared_flags(old_src.slot_at(a).leaf->0.flags);
}

/// After addresses have been unmapped, none of them is mapped, and those that share no page
/// with them are as before. Memory holds what it held.
pub proof fn law_unmapped(
    old_table: PageTable,
    v: PagesView,
    table: PageTable,
    w: PagesView,
    first: nat,
    stop: nat,
    x: nat,
)
    requires
        old_table.wf(v),
        unmapped(old_table, v, table, w, first, stop),
        x <= VA_MAX,
    ensures
        first <= x < stop ==> table.slot_at(x).leaf is None,
        (forall|y: nat|
            first <= y < stop ==> !#[trigger] same_region(x, y, old_table.slot_at(x).level))
            ==> table.slot_at(x) == old_table.slot_at(x),
        w.ram == v.ram,
{
    assert(table.slot_at(x) == table.slot_at(x));
    if first <= x < stop {
        assert(same_region(x, x, old_table.slot_at(x).level));
        assert(entry_touched(old_table, x, first, stop));
    }
}

/// What mapping has added, unmapping takes away: afterwards the addresses are not mapped, and
/// all others as before. Each page is used beyond the table as often as before, but for
/// those of given physical addresses, which the table has given back.
pub proof fn law_map_then_unmap(
    old_table: PageTable,
    v: PagesView,
    mid: PageTable,
    m: PagesView,
    table: PageTable,
    w: PagesView,
    start: nat,
    end: nat,
    perm: PtEntryFlags,
    zeroed: bool,
    reached: nat,
    x: nat,
    p: nat,
)
    requires
        v.wf(),
        mid.wf(m),
        m.same_heap(v),
        end <= VA_MAX,
        start % 4096 == 0,
        end % 4096 == 0,
        mapped_addrs(
            old_table,
            v,
            mid,
            m,
            start,
            end,
            MapTarget::AllocatedAddr { zeroed, allocate_new: true },
            perm,
            reached,
            Ok(()),
        ),
        forall|y: nat| start <= y < end ==> (#[trigger] old_table.slot_at(y)).leaf is None,
        unmapped(mid, m, table, w, start, end),
        x <= VA_MAX,
        v.is_page(p),
    ensures
        start <= x < end ==> table.slot_at(x).leaf is None,
        table.spare(w, p) == old_table.spare(v, p),
        !(start <= x < end) ==> table.slot_at(x).leaf == old_table.slot_at(x).leaf,
{
    let pa = MapTarget::AllocatedAddr { zeroed, allocate_new: true };
    law_unmapped(mid, m, table, w, start, end, x);
    law_mapped(old_table, v, mid, m, start, end, pa, perm, reached, x);
    assert(mid.spare(m, p) == old_table.spare(v, p));
    assert(m.is_page(p));
    assert(table.spare(w, p) == mid.spare(m, p));
    if !(start <= x < end) {
        assert forall|y: nat| start <= y < end implies (#[trigger] mid.slot_at(y)).level == 0 by {
            assert(old_table.slot_at(y).leaf is None);
            assert(mid.slot_at(y).level == super::range::map_level(start, end, pa, y));
        }
        lemma_beside(mid, m, start, end, x);
    }
}

/// An address beside a range of small pages shares no page with it.
proof fn lemma_beside(table: PageTable, v: PagesView, start: nat, end: nat, x: nat)
    requires
        table.wf(v),
        start % 4096 == 0,
        end % 4096 == 0,
        forall|y: nat| start <= y < end ==> (#[trigger] table.slot_at(y)).level == 0,
        !(start <= x < end),
    ensures
        forall|y: nat|
            start <= y < end ==> !#[trigger] same_region(x, y, table.slot_at(x).level),
{
    let level = table.slot_at(x).level;
    lemma_path_to_slot(table.0.entries@, 2, x, v);
    lemma_level_sizes();
    assert forall|y: nat| start <= y < end implies !#[trigger] same_region(x, y, level) by {
        if same_region(x, y, level) {
            assert(same_region(y, x, level));
            lemma_slot_region(table.0.entries@, 2, x, y, v);
            assert(table.slot_at(y).level == 0);
            assert(x / 4096 == y / 4096);
        }
    }
}

/// An address can be used in some way if it is mapped and the page allows for that, where a
/// page that is copied on the next write counts as writable. If not, the error says whether
/// it is mapped, and where the page, or the place for one, begins.
pub proof fn law_access(table: PageTable, v: PagesView, x: nat, flags: PtEntryFlags)
    requires
        table.wf(v),
        x <= VA_MAX,
    ensures
        ({
            let e = table.access_error(x, flags);
            let base = VirtAddr(((x - x % level_size(table.slot_at(x).level)) as nat) as u64);
            &&& table.slot_at(x).leaf is None ==> e == Some(
                KernelError::VirtualPageNotMapped(base),
            )
            &&& table.slot_at(x).leaf matches Some(page) ==> {
                &&& e is None <==> {
                    &&& flags.v ==> page.flags.v
                    &&& flags.r ==> page.flags.r
                    &&& flags.w ==> page.flags.w || page.flags.c
                    &&& flags.x ==> page.flags.x
                    &&& flags.u ==> page.flags.u
                    &&& flags.g ==> page.flags.g
                    &&& flags.a ==> page.flags.a
                    &&& flags.d ==> page.flags.d
                    &&& flags.c ==> page.flags.c
                }
                &&& e is Some ==> e == Some(KernelError::InaccessiblePage(base))
            }
            &&& table.slot_at(x).level == 0 ==> base.0 == x / 4096 * 4096
        }),
{
    lemma_level_sizes();
    lemma_path_to_slot(table.0.entries@, 2, x, v);
    lemma_entry_base(x, table.slot_at(x).level);
    let base = (x - x % level_size(table.slot_at(x).level)) as nat;
    assert(0 <= base <= x);
    assert(VirtAddr(base as u64) == VirtAddr(super::access::entry_base(table.slot_at(x), x) as u64));
    assert(table.slot_at(x).level == 0 ==> base == x / 4096 * 4096);
}

/// After a table has been given up, a page that it alone used is free, as often as it used
/// it; one that others use too has lost just the uses by the table, and one that it did not
/// use has the users that it had. Memory holds what it held.
pub proof fn law_freed(table: PageTable, v: PagesView, w: PagesView, p: nat)
    requires
        v.wf(),
        w.wf(),
        super::sharing::freed(table, v, w),
        v.is_page(p),
        p <= u64::MAX,
        v.count(p) < u32::MAX,
        w.count(p) < u32::MAX,
    ensures
        w.count(p) == v.count(p) - table.uses(p),
        v.count(p) == table.uses(p) ==> w.free.contains(p as u64),
        w.ram == v.ram,
{
    assert(super::tree::budget(w, p) == table.spare(v, p));
    assert(w.is_page(p));
    assert(w.free.contains(p as u64) <==> w.count((p as u64) as nat) == 0);
}

/// The register that makes the machine use a table holds Sv39 mode, 8, in its four highest
/// bits, and the number of the page of the table in its lowest 44.
pub proof fn law_satp(ppn: nat)
    requires
        ppn < 0x1000_0000_0000,
    ensures
        super::satp_value(ppn) / 0x1000_0000_0000_0000 == 8,
        super::satp_value(ppn) % 0x1000_0000_0000 == ppn,
        super::satp_value(ppn) < 0x1_0000_0000_0000_0000,
{
}

/// Pages that are allocated for different addresses are different pages.
pub proof fn law_mapped_apart(
    old_table: PageTable,
    v: PagesView,
    table: PageTable,
    w: PagesView,
    start: nat,
    end: nat,
    zeroed: bool,
    allocate_new: bool,
    perm: PtEntryFlags,
    reached: nat,
    x: nat,
    y: nat,
)
    requires
        v.wf(),
        table.wf(w),
        old_table.backed(v),
        mapped_addrs(
            old_table,
            v,
            table,
            w,
            start,
            end,
            MapTarget::AllocatedAddr { zeroed, allocate_new },
            perm,
            reached,
            Ok(()),
        ),
        start <= x < end,
        start <= y < end,
        end <= VA_MAX,
        old_table.slot_at(x).leaf is None,
        old_table.slot_at(y).leaf is None,
        x / 4096 != y / 4096,
    ensures
        table.slot_at(x).leaf is Some,
        table.slot_at(y).leaf is Some,
        table.slot_at(x).leaf->0.pa != table.slot_at(y).leaf->0.pa,
{
    let pa = MapTarget::AllocatedAddr { zeroed, allocate_new };
    law_mapped(old_table, v, table, w, start, end, pa, perm, reached, x);
    law_mapped(old_table, v, table, w, start, end, pa, perm, reached, y);
    if table.slot_at(x).leaf->0.pa == table.slot_at(y).leaf->0.pa {
        let p = table.slot_at(x).leaf->0.pa.0 as nat;
        let i = v.free.index_of(p as u64);
        assert(v.is_page(v.free[i] as nat));
        assert(old_table.spare(v, p) >= 0);
        assert(table.slot_at(x).level == super::range::map_level(start, end, pa, x));
        lemma_level_sizes();
        assert(same_region(x, y, 3));
        super::tree::lemma_used_twice(table.0.entries@, 2, x, y, w, p);
        assert(table.spare(w, p) == old_table.spare(v, p));
    }
}

/// Addresses are mapped by large pages, of 2 MiB, just where both they and what they are
/// mapped to fill such pages; all others by pages of 4 KiB.
pub proof fn law_large_pages(start: nat, end: nat, pa: MapTarget, x: nat)
    requires
        start <= x < end,
    ensures
        ({
            let large = super::range::map_level(start, end, pa, x) == 1;
            let page = (x / 0x20_0000 * 0x20_0000) as nat;
            &&& large <==> (pa matches MapTarget::FixedAddr { addr } && (addr.0 as nat - start)
                % 0x20_0000 == 0 && start <= page && page + 0x20_0000 <= end)
            &&& !large ==> super::range::map_level(start, end, pa, x) == 0
        }),
{
    lemma_level_sizes();
    lemma_page_within(start, end, x);
    if let MapTarget::FixedAddr { addr } = pa {
        lemma_congruent(start, addr.0 as nat);
    }
}

/// A large page lies within a range just if the address lies between its boundaries.
proof fn lemma_page_within(start: nat, end: nat, x: nat)
    ensures
        round_up(start, 0x20_0000) <= x <==> start <= x / 0x20_0000 * 0x20_0000,
        x < round_down(end, 0x20_0000) <==> x / 0x20_0000 * 0x20_0000 + 0x20_0000 <= end,
{
    let page = x / 0x20_0000 * 0x20_0000;
    lemma_round(start, 0x20_0000);
    lemma_round(end, 0x20_0000);
    let a = round_up(start, 0x20_0000);
    let b = round_down(end, 0x20_0000);
    law_rounding(start, 0x20_0000, page);
    law_rounding(end, 0x20_0000, page + 0x20_0000);
    assert(a % 0x20_0000 == 0 && b % 0x20_0000 == 0);
}

proof fn lemma_congruent(a: nat, b: nat)
    ensures
        a % 0x20_0000 == b % 0x20_0000 <==> (b - a) % 0x20_0000 == 0,
{
}

/// What is fetched from an address on is what memory holds from where the address is
/// translated to, up to the end of its page.
pub proof fn law_chunk(at: Slot, va: nat, v: PagesView, k: int)
    requires
        at.level <= 2,
        at.leaf is Some,
        super::writing::in_ram(at.leaf->0, at.level, v),
        0 <= k < super::writing::chunk(at, va, v).len(),
    ensures
        super::writing::chunk(at, va, v).len() + va % level_size(at.level) == level_size(at.level),
        super::writing::chunk(at, va, v)[k] == v.ram[translate(at, va) - v.ram_base + k],
        translate(at, va) - at.leaf->0.pa.0 == va % level_size(at.level),
{
    lemma_level_sizes();
    assert(0 <= va % level_size(at.level) < level_size(at.level));
}

/// Whatever comes of mapping addresses, pages that were in use hold what they held and have
/// the users that they had.
pub proof fn law_map_keeps_pages(
    old_table: PageTable,
    v: PagesView,
    table: PageTable,
    w: PagesView,
    start: nat,
    end: nat,
    pa: MapTarget,
    perm: PtEntryFlags,
    reached: nat,
    r: Result<(), KernelError>,
    p: nat,
)
    requires
        mapped_addrs(old_table, v, table, w, start, end, pa, perm, reached, r),
        v.is_page(p),
        v.count(p) > 0,
    ensures
        w.count(p) == v.count(p),
        w.page_bytes(p) == v.page_bytes(p),
{
    assert(w.count(p) == v.count(p));
}

/// Mapping fails at the first address that is mapped with other permissions, or where there
/// is no free page any more; what comes before it is mapped.
pub proof fn law_map_fails(
    old_table: PageTable,
    v: PagesView,
    table: PageTable,
    w: PagesView,
    start: nat,
    end: nat,
    pa: MapTarget,
    perm: PtEntryFlags,
    reached: nat,
    r: Result<(), KernelError>,
    x: nat,
)
    requires
        mapped_addrs(old_table, v, table, w, start, end, pa, perm, reached, r),
        x <= VA_MAX,
    ensures
        r is Ok ==> reached == end,
        start <= x < reached ==> table.slot_at(x).leaf is Some,
        start <= x < reached ==> (old_table.slot_at(x).leaf matches Some(page) ==> page.flags.r
            == perm.r && page.flags.w == perm.w && page.flags.x == perm.x && page.flags.u
            == perm.u),
        r matches Err(KernelError::VirtualAddressWithUnexpectedPerm(va, wanted, found)) ==> {
            &&& va.0 == reached
            &&& wanted == perm
            &&& old_table.slot_at(reached).leaf matches Some(page)
            &&& found.r == page.flags.r && found.w == page.flags.w && found.x == page.flags.x
                && found.u == page.flags.u
            &&& found != perm
        },
        r == Err::<(), KernelError>(KernelError::NoFreePage) ==> w.free.len() == 0,
        r matches Err(e) ==> e is NoFreePage || e is VirtualAddressWithUnexpectedPerm,
{
    assert(table.slot_at(x) == table.slot_at(x));
}

/// A page that is fetched to be written to is copied first if it is to be copied on the next
/// write, and left as it is otherwise.
pub proof fn law_fetched_for_writing(page: LeafPage, v: PagesView)
    ensures
        ({
            let now = super::writing::written_page_mut(page, v);
            &&& !page.flags.c ==> now == page
            &&& page.flags.c && !page.flags.w && v.count(page.pa.0 as nat) == 1 ==> now.pa
                == page.pa && now.flags == (PtEntryFlags { w: true, c: false, ..page.flags })
            &&& page.flags.c && !page.flags.w && v.count(page.pa.0 as nat) != 1 && v.free.len() > 0
                ==> now.pa.0 == v.free[0] && now.flags == (PtEntryFlags {
                w: true,
                c: false,
                ..page.flags
            })
        }),
{
}

/// What stays where it is when pages change hands.
pub proof fn law_same_heap(v: PagesView, w: PagesView, p: nat)
    requires
        w.same_heap(v),
    ensures
        w.is_page(p) <==> v.is_page(p),
        w.heap_start == v.heap_start,
        w.heap_end == v.heap_end,
        w.ram_base == v.ram_base,
        w.ram.len() == v.ram.len(),
        w.counts.len() == v.counts.len(),
{
}

/// A page may be written to and read by a process if and only if it belongs to processes and
/// may be read and written.
pub proof fn law_user_page(page: PtEntryFlags)
    ensures
        page.has(PtEntryFlags::urw_spec()) <==> page.u && page.r && page.w,
        PtEntryFlags::urw_spec().has(page) ==> !page.v && !page.x && !page.g && !page.a && !page.d
            && !page.c,
{
}

} // verus!
