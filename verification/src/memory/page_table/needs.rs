//! How many pages it takes to map a range of addresses.
use super::super::addr::VA_MAX;
use super::super::page_manager::PagesView;
use super::super::{level_size, lemma_level_sizes};
use super::entry::PtEntryFlags;
use super::range::{grown_near, lemma_page_region, mapped_range};
use super::tree::{
    lemma_path_to_slot, lemma_region_up, lemma_slot_region, lemma_took_twice, missing_tables,
    same_region, took, Slot,
};
use super::{MapTarget, PageTable};
use crate::error::KernelError;
use vstd::prelude::*;

verus! {

/// Whether a table with entries of level `j` has to be made for a piece at `x`, where the
/// addresses from `start` up to it have got theirs: there was none, and the piece is the
/// first one that needs it.
pub open spec fn needs_table(before: Slot, start: nat, x: nat, level: nat, j: nat) -> nat {
    if before.leaf is None && level <= j < before.level && (x == start || x % level_size(j + 1)
        == 0) {
        1
    } else {
        0
    }
}

/// How many pages it takes to map a piece of level `level` at `x`: for tables, and one
/// for the piece itself if it is to be allocated.
pub open spec fn piece_needs(before: Slot, start: nat, x: nat, level: nat, fresh: bool) -> nat {
    needs_table(before, start, x, level, 0) + needs_table(before, start, x, level, 1) + if fresh
        && before.leaf is None {
        1nat
    } else {
        0
    }
}

/// How many pages it takes to map the addresses from `start` up to `x`, by pieces of the
/// levels that `levels` gives for their addresses.
pub open spec fn needs_to(
    table: PageTable,
    start: nat,
    x: nat,
    levels: spec_fn(nat) -> nat,
    fresh: bool,
) -> nat
    decreases x,
{
    if x <= start {
        0
    } else {
        let level = levels((x - 1) as nat);
        if level_size(level) == 0 || x < start + level_size(level) {
            0
        } else {
            let y = (x - level_size(level)) as nat;
            needs_to(table, start, y, levels, fresh) + piece_needs(
                table.slot_at(y),
                start,
                y,
                level,
                fresh,
            )
        }
    }
}

/// All addresses are mapped by pieces of one level.
pub open spec fn uniform(level: nat) -> spec_fn(nat) -> nat {
    |x: nat| level
}

/// Whether just as many pages have been taken as it takes to map the addresses from
/// `start` up to `reached`; or, where memory has run out, all there were, which are fewer
/// than it takes to map one more piece.
pub open spec fn took_for(
    table: PageTable,
    v: PagesView,
    w: PagesView,
    start: nat,
    reached: nat,
    levels: spec_fn(nat) -> nat,
    fresh: bool,
    r: Result<(), KernelError>,
) -> bool {
    if r == Err::<(), KernelError>(KernelError::NoFreePage) {
        &&& took(v, w, v.free.len())
        &&& needs_to(table, start, reached, levels, fresh) <= v.free.len()
        &&& v.free.len() < needs_to(table, start, reached, levels, fresh) + piece_needs(
            table.slot_at(reached),
            start,
            reached,
            levels(reached),
            fresh,
        )
    } else {
        took(v, w, needs_to(table, start, reached, levels, fresh))
    }
}

/// One more piece takes what it needs.
pub proof fn lemma_needs_step(
    table: PageTable,
    start: nat,
    cur: nat,
    level: nat,
    levels: spec_fn(nat) -> nat,
    fresh: bool,
)
    requires
        level <= 2,
        start <= cur,
        levels((cur + level_size(level) - 1) as nat) == level,
    ensures
        needs_to(table, start, (cur + level_size(level)) as nat, levels, fresh) == needs_to(
            table,
            start,
            cur,
            levels,
            fresh,
        ) + piece_needs(table.slot_at(cur), start, cur, level, fresh),
{
    lemma_level_sizes();
}

/// Addresses in one table end their walks there or below.
pub proof fn lemma_same_table(table: PageTable, v: PagesView, x: nat, y: nat, level: nat)
    requires
        table.wf(v),
        level <= 2,
        same_region(x, y, level + 1),
        table.slot_at(y).level <= level,
    ensures
        table.slot_at(x).level <= level,
{
    lemma_path_to_slot(table.0.entries@, 2, x, v);
    if table.slot_at(x).level > level {
        lemma_region_up(x, y, level + 1, table.slot_at(x).level);
        assert(same_region(y, x, table.slot_at(x).level));
        lemma_slot_region(table.0.entries@, 2, x, y, v);
    }
}

/// An address that begins no region lies in the same one as the address before it.
proof fn lemma_region_goes_on(x: nat, level: nat)
    requires
        1 <= level <= 2,
        x > 0,
        x % level_size(level) != 0,
    ensures
        same_region(x, (x - 1) as nat, level),
{
    lemma_level_sizes();
    if level == 1 {
        assert(x % 0x20_0000 != 0);
        assert(x / 0x20_0000 == (x - 1) / 0x20_0000);
    } else {
        assert(x % 0x4000_0000 != 0);
        assert(x / 0x4000_0000 == (x - 1) / 0x4000_0000);
    }
}

/// A table that is there for an address for the first piece that needs it is one that
/// was there before.
proof fn lemma_not_grown(
    table: PageTable,
    before: PageTable,
    start: nat,
    stop: nat,
    x: nat,
    level: nat,
    j: nat,
)
    requires
        grown_near(table, before, start, stop, level),
        start <= stop <= x <= VA_MAX,
        before.slot_at(x).leaf is None,
        level <= j < 2,
        j < table.slot_at(x).level,
        x == start || x % level_size(j + 1) == 0,
    ensures
        j < before.slot_at(x).level,
{
    let after = before.slot_at(x);
    if after.level <= j {
        let y = choose|y: nat| start <= y < stop && #[trigger] same_region(x, y, after.level + 1);
        lemma_region_up(x, y, after.level + 1, j + 1);
        if x != start {
            assert(same_region(y, x, j + 1));
            lemma_page_region(y, x, j + 1);
        }
    }
}

/// Where the address before it is mapped, the tables for an address that begins no region
/// are there.
proof fn lemma_grown(before: PageTable, w: PagesView, x: nat, j: nat)
    requires
        before.wf(w),
        x > 0,
        j < 2,
        x % level_size(j + 1) != 0,
        before.slot_at((x - 1) as nat).level <= j,
    ensures
        before.slot_at(x).level <= j,
{
    lemma_region_goes_on(x, j + 1);
    lemma_same_table(before, w, x, (x - 1) as nat, j);
}

/// The tables that are missing for a piece are those that it is the first one to need.
pub proof fn lemma_missing(
    table: PageTable,
    v: PagesView,
    before: PageTable,
    w: PagesView,
    start: nat,
    cur: nat,
    end: nat,
    pa: MapTarget,
    perm: PtEntryFlags,
    level: nat,
)
    requires
        level <= 2,
        table.wf(v),
        before.wf(w),
        start <= cur < end <= VA_MAX,
        table.can_map(start, end, pa, level),
        mapped_range(table, v, before, w, start, cur, pa, perm, level),
        grown_near(table, before, start, cur, level),
        forall|x: nat|
            start <= x < cur && table.slot_at(x).leaf is None ==> (#[trigger] before.slot_at(
                x,
            )).level == level,
    ensures
        missing_tables(before.slot_at(cur), level) == needs_table(
            table.slot_at(cur),
            start,
            cur,
            level,
            0,
        ) + needs_table(table.slot_at(cur), start, cur, level, 1),
{
    let old_slot = table.slot_at(cur);
    let here = before.slot_at(cur);
    assert(here.leaf == old_slot.leaf);
    lemma_path_to_slot(table.0.entries@, 2, cur, v);
    lemma_path_to_slot(before.0.entries@, 2, cur, w);
    if here.leaf is None {
        assert(here.level <= old_slot.level);
        assert forall|j: nat| level <= j < old_slot.level && j < 2 implies (j < here.level <==> (cur
            == start || #[trigger] (cur % level_size(j + 1)) == 0)) by {
            if cur == start || cur % level_size(j + 1) == 0 {
                lemma_not_grown(table, before, start, cur, cur, level, j);
            } else {
                let z = (cur - 1) as nat;
                let at = before.slot_at(z);
                if table.slot_at(z).leaf is None {
                    assert(at.level == level);
                } else {
                    assert(table.slot_at(z).level <= level);
                    assert(at == table.slot_at(z));
                }
                lemma_grown(before, w, cur, j);
            }
        }
        assert(old_slot.level <= 2 && here.level <= 2 && level <= here.level);
        assert(level <= 0 < old_slot.level ==> (0 < here.level <==> (cur == start || cur
            % level_size(0 + 1) == 0)));
        assert(level <= 1 < old_slot.level ==> (1 < here.level <==> (cur == start || cur
            % level_size(1 + 1) == 0)));
    }
}

/// A piece behind others needs the same, whether these are looked at with it or have
/// been mapped before.
proof fn lemma_piece_same(
    t0: PageTable,
    v0: PagesView,
    t1: PageTable,
    v1: PagesView,
    start: nat,
    a: nat,
    y: nat,
    level: nat,
)
    requires
        level <= 1,
        t0.wf(v0),
        t1.wf(v1),
        start < a <= y <= VA_MAX,
        grown_near(t0, t1, start, a, 0),
        t0.slot_at(y).leaf is None,
        t1.slot_at(y).leaf is None,
        t1.slot_at((a - 1) as nat).level <= 1,
        a % level_size(t1.slot_at((a - 1) as nat).level) == 0,
    ensures
        piece_needs(t1.slot_at(y), a, y, level, false) == piece_needs(
            t0.slot_at(y),
            start,
            y,
            level,
            false,
        ),
{
    lemma_level_sizes();
    lemma_path_to_slot(t0.0.entries@, 2, y, v0);
    lemma_path_to_slot(t1.0.entries@, 2, y, v1);
    let o0 = t0.slot_at(y);
    let o1 = t1.slot_at(y);
    assert(o1.level <= o0.level);
    let zl = t1.slot_at((a - 1) as nat).level;
    assert forall|j: nat| level <= j < 2 implies needs_table(o1, a, y, level, j) == #[trigger]
        needs_table(o0, start, y, level, j) by {
        if y % level_size(j + 1) == 0 {
            if j < o0.level {
                lemma_not_grown(t0, t1, start, a, y, 0, j);
            }
        } else if y == a {
            if zl > j {
                assert(zl == 1 && j == 0);
                assert(a % 0x20_0000 == 0);
            }
            lemma_grown(t1, v1, a, j);
        }
    }
    assert(needs_table(o1, a, y, level, 0) == needs_table(o0, start, y, level, 0));
    assert(needs_table(o1, a, y, level, 1) == needs_table(o0, start, y, level, 1));
}

/// What two neighbouring ranges take together.
pub proof fn lemma_needs_join(
    t0: PageTable,
    v0: PagesView,
    t1: PageTable,
    v1: PagesView,
    start: nat,
    a: nat,
    k: nat,
    level: nat,
    levels: spec_fn(nat) -> nat,
)
    requires
        level <= 1,
        t0.wf(v0),
        t1.wf(v1),
        start <= a,
        a + k * level_size(level) <= VA_MAX,
        start == a ==> t1 == t0,
        start < a ==> {
            &&& grown_near(t0, t1, start, a, 0)
            &&& t1.slot_at((a - 1) as nat).level <= 1
            &&& a % level_size(t1.slot_at((a - 1) as nat).level) == 0
        },
        forall|y: nat|
            a <= y < a + k * level_size(level) ==> {
                &&& #[trigger] levels(y) == level
                &&& t0.slot_at(y).leaf is None
                &&& t1.slot_at(y).leaf is None
            },
    ensures
        needs_to(t0, start, (a + k * level_size(level)) as nat, levels, false) == needs_to(
            t0,
            start,
            a,
            levels,
            false,
        ) + needs_to(t1, a, (a + k * level_size(level)) as nat, uniform(level), false),
    decreases k,
{
    let ps = level_size(level);
    lemma_level_sizes();
    if k > 0 {
        let m = (k - 1) as nat;
        assert(k * ps == m * ps + ps) by (nonlinear_arith)
            requires
                k == m + 1,
        ;
        let y = (a + m * ps) as nat;
        assert(m * level_size(level) == m * ps && k * level_size(level) == k * ps);
        assert forall|z: nat| a <= z < a + m * level_size(level) implies {
            &&& #[trigger] levels(z) == level
            &&& t0.slot_at(z).leaf is None
            &&& t1.slot_at(z).leaf is None
        } by {
            assert(a <= z < a + k * level_size(level));
        }
        lemma_needs_join(t0, v0, t1, v1, start, a, m, level, levels);
        assert(levels(y) == level);
        assert(levels((y + ps - 1) as nat) == level);
        lemma_needs_step(t0, start, y, level, levels, false);
        lemma_needs_step(t1, a, y, level, uniform(level), false);
        if start < a {
            lemma_piece_same(t0, v0, t1, v1, start, a, y, level);
        }
    } else {
        assert(k * ps == 0) by (nonlinear_arith)
            requires
                k == 0,
        ;
    }
}

/// What the piece at which memory runs out takes.
pub proof fn lemma_last_same(
    t0: PageTable,
    v0: PagesView,
    t1: PageTable,
    v1: PagesView,
    start: nat,
    a: nat,
    y: nat,
    level: nat,
)
    requires
        level <= 1,
        t0.wf(v0),
        t1.wf(v1),
        start <= a <= y <= VA_MAX,
        start == a ==> t1 == t0,
        start < a ==> {
            &&& grown_near(t0, t1, start, a, 0)
            &&& t1.slot_at((a - 1) as nat).level <= 1
            &&& a % level_size(t1.slot_at((a - 1) as nat).level) == 0
        },
        t0.slot_at(y).leaf is None,
        t1.slot_at(y).leaf is None,
    ensures
        piece_needs(t1.slot_at(y), a, y, level, false) == piece_needs(
            t0.slot_at(y),
            start,
            y,
            level,
            false,
        ),
{
    if start < a {
        lemma_piece_same(t0, v0, t1, v1, start, a, y, level);
    }
}

/// What it takes depends on the levels of the addresses in the range alone.
pub proof fn lemma_needs_levels(
    table: PageTable,
    start: nat,
    x: nat,
    one: spec_fn(nat) -> nat,
    other: spec_fn(nat) -> nat,
    fresh: bool,
)
    requires
        forall|y: nat| start <= y < x ==> #[trigger] one(y) == other(y),
    ensures
        needs_to(table, start, x, one, fresh) == needs_to(table, start, x, other, fresh),
    decreases x,
{
    if x > start {
        let z = (x - 1) as nat;
        assert(one(z) == other(z));
        let size = level_size(one(z));
        if size > 0 && x >= start + size {
            lemma_needs_levels(table, start, (x - size) as nat, one, other, fresh);
        }
    }
}

/// The same for what has been taken.
pub proof fn lemma_took_levels(
    table: PageTable,
    v: PagesView,
    w: PagesView,
    start: nat,
    reached: nat,
    one: spec_fn(nat) -> nat,
    other: spec_fn(nat) -> nat,
    fresh: bool,
    r: Result<(), KernelError>,
)
    requires
        took_for(table, v, w, start, reached, one, fresh, r),
        forall|y: nat| start <= y < reached ==> #[trigger] one(y) == other(y),
        r is Err ==> one(reached) == other(reached),
    ensures
        took_for(table, v, w, start, reached, other, fresh, r),
{
    lemma_needs_levels(table, start, reached, one, other, fresh);
}

/// The pages taken for two neighbouring ranges.
pub proof fn lemma_took_join(
    t0: PageTable,
    v0: PagesView,
    t1: PageTable,
    v1: PagesView,
    v2: PagesView,
    start: nat,
    a: nat,
    reached: nat,
    level: nat,
    levels: spec_fn(nat) -> nat,
    r: Result<(), KernelError>,
)
    requires
        level <= 1,
        v0.wf(),
        t0.wf(v0),
        t1.wf(v1),
        start <= a <= reached <= VA_MAX,
        a % level_size(level) == 0,
        reached % level_size(level) == 0,
        start == a ==> t1 == t0,
        start < a ==> {
            &&& grown_near(t0, t1, start, a, 0)
            &&& t1.slot_at((a - 1) as nat).level <= 1
            &&& a % level_size(t1.slot_at((a - 1) as nat).level) == 0
        },
        forall|y: nat|
            a <= y < reached ==> {
                &&& #[trigger] levels(y) == level
                &&& t0.slot_at(y).leaf is None
                &&& t1.slot_at(y).leaf is None
            },
        r is Err ==> {
            &&& levels(reached) == level
            &&& t0.slot_at(reached).leaf is None
            &&& t1.slot_at(reached).leaf is None
        },
        took(v0, v1, needs_to(t0, start, a, levels, false)),
        took_for(t1, v1, v2, a, reached, uniform(level), false, r),
    ensures
        took_for(t0, v0, v2, start, reached, levels, false, r),
{
    let ps = level_size(level);
    lemma_level_sizes();
    let k = ((reached - a) / ps as int) as nat;
    lemma_pieces(a, reached, level);
    lemma_needs_join(t0, v0, t1, v1, start, a, k, level, levels);
    let done = needs_to(t0, start, a, levels, false);
    if r is Err {
        lemma_last_same(t0, v0, t1, v1, start, a, reached, level);
    }
    if r == Err::<(), KernelError>(KernelError::NoFreePage) {
        lemma_took_twice(v0, v1, v2, done, v1.free.len());
    } else {
        lemma_took_twice(v0, v1, v2, done, needs_to(t1, a, reached, uniform(level), false));
    }
}

/// A range between page boundaries is made up of whole pages.
proof fn lemma_pieces(a: nat, b: nat, level: nat)
    requires
        level <= 1,
        a <= b,
        a % level_size(level) == 0,
        b % level_size(level) == 0,
    ensures
        a + ((b - a) / level_size(level) as int) * level_size(level) == b,
        (b - a) / level_size(level) as int >= 0,
{
    lemma_level_sizes();
    if level == 0 {
        assert(a % 0x1000 == 0 && b % 0x1000 == 0);
        assert(((b - a) / 0x1000) * 0x1000 == b - a);
    } else {
        assert(a % 0x20_0000 == 0 && b % 0x20_0000 == 0);
        assert(((b - a) / 0x20_0000) * 0x20_0000 == b - a);
    }
}

/// The tables made for two neighbouring ranges.
pub proof fn lemma_grown_join(
    t0: PageTable,
    t1: PageTable,
    v1: PagesView,
    t2: PageTable,
    v2: PagesView,
    start: nat,
    a: nat,
    b: nat,
    pa: MapTarget,
    perm: PtEntryFlags,
    level: nat,
)
    requires
        start <= a <= b,
        start == a ==> t1 == t0,
        start < a ==> grown_near(t0, t1, start, a, 0),
        grown_near(t1, t2, a, b, level),
        mapped_range(t1, v1, t2, v2, a, b, pa, perm, level),
    ensures
        grown_near(t0, t2, start, b, 0),
{
    assert forall|x: nat|
        x <= VA_MAX && (#[trigger] t2.slot_at(x)).leaf is None && t2.slot_at(x) != t0.slot_at(
            x,
        ) implies {
        &&& 0 <= t2.slot_at(x).level <= t0.slot_at(x).level
        &&& exists|y: nat| start <= y < b && #[trigger] same_region(x, y, t2.slot_at(x).level + 1)
    } by {
        let mid = t1.slot_at(x);
        let after = t2.slot_at(x);
        assert(mid.leaf is None);
        if after != mid {
            let y = choose|y: nat| a <= y < b && #[trigger] same_region(x, y, after.level + 1);
            assert(start <= y < b);
        } else {
            let y = choose|y: nat| start <= y < a && #[trigger] same_region(x, y, mid.level + 1);
            assert(start <= y < b);
        }
    }
}

} // verus!
