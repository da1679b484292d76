//! How many pages it takes to share the pages of one page table with another.
use super::super::addr::{VirtAddr, VA_MAX};
use super::super::page_manager::PagesView;
use super::access::{entry_base, lemma_entry_base};
use super::cloning::{entry_end, lemma_same_entry, maps_page, shared_slot, shares};
use super::needs::lemma_same_table;
use super::range::mapped_page;
use super::sharing::entry_touched;
use super::tree::{
    lemma_path_to_slot, lemma_region_up, missing_tables, same_region, LeafPage,
};
use super::{MapTarget, PageTable};
use crate::error::KernelError;
use vstd::prelude::*;

verus! {

/// Whether a table with entries of level `j` has to be made in the destination for the
/// entry of the source that holds the address `c`, where those from `first` up to it have
/// got theirs: there was none, and no page before it needs one.
pub open spec fn entry_table(dst: PageTable, src: PageTable, first: nat, c: nat, j: nat) -> nat {
    let at = src.slot_at(c);
    if at.leaf is Some && at.level <= j < dst.slot_at(entry_base(at, c)).level && !exists|y: nat|
        first <= y < c && #[trigger] maps_page(src, y) && same_region(c, y, j + 1) {
        1
    } else {
        0
    }
}

/// How many tables it takes to share the pages whose entries hold the addresses from
/// `cur` up to `stop`, where those from `first` up to `cur` are shared.
pub open spec fn tables_for(dst: PageTable, src: PageTable, first: nat, cur: nat, stop: nat) -> nat
    decreases
            if cur >= stop {
                0
            } else {
                stop - cur
            },
{
    if cur >= stop || entry_end(src, cur) <= cur {
        0
    } else {
        entry_table(dst, src, first, cur, 0) + entry_table(dst, src, first, cur, 1) + tables_for(
            dst,
            src,
            first,
            entry_end(src, cur),
            stop,
        )
    }
}

/// What the entry at `c` adds, where `c` begins an entry or the addresses that are
/// looked at.
pub proof fn lemma_tables_step(
    dst: PageTable,
    src: PageTable,
    v: PagesView,
    first: nat,
    a: nat,
    c: nat,
)
    requires
        src.wf(v),
        a <= c,
        a < c ==> exists|z: nat|
            #![trigger src.slot_at(z)]
            a <= z < c && c == entry_end(src, z),
    ensures
        tables_for(dst, src, first, a, entry_end(src, c)) == tables_for(dst, src, first, a, c)
            + entry_table(dst, src, first, c, 0) + entry_table(dst, src, first, c, 1),
    decreases c - a,
{
    lemma_same_entry(src, v, c, c);
    let end = entry_end(src, c);
    if a == c {
        assert(tables_for(dst, src, first, end, end) == 0);
    } else {
        lemma_same_entry(src, v, a, a);
        let e = entry_end(src, a);
        let z = choose|z: nat|
            #![trigger src.slot_at(z)]
            a <= z < c && c == entry_end(src, z);
        if z < e {
            lemma_same_entry(src, v, a, z);
            assert(e == c);
        }
        lemma_same_entry(src, v, z, z);
        assert(e <= c);
        lemma_tables_step(dst, src, v, first, e, c);
    }
}

/// Whether tables have been made for no other pages than those from `first` up to `cur`.
#[verifier::opaque]
pub open spec fn grown_for(
    dst: PageTable,
    now: PageTable,
    src: PageTable,
    first: nat,
    cur: nat,
) -> bool {
    forall|x: nat|
        x <= VA_MAX && (#[trigger] now.slot_at(x)).leaf is None ==> {
            let before = dst.slot_at(x);
            let after = now.slot_at(x);
            after == before || {
                &&& after.level <= before.level
                &&& exists|y: nat|
                    first <= y < cur && #[trigger] maps_page(src, y) && same_region(
                        x,
                        y,
                        after.level + 1,
                    )
            }
        }
}

/// The tables that are missing for an entry are those that it is the first one to need.
pub proof fn lemma_missing_for(
    dst: PageTable,
    now: PageTable,
    w: PagesView,
    src: PageTable,
    v: PagesView,
    first: nat,
    c: nat,
)
    requires
        dst.wf(v),
        now.wf(w),
        src.wf(v),
        first <= c <= VA_MAX,
        src.slot_at(c).leaf is Some,
        entry_base(src.slot_at(c), c) <= VA_MAX,
        grown_for(dst, now, src, first, c),
        now.slot_at(entry_base(src.slot_at(c), c)).leaf is None,
        dst.slot_at(entry_base(src.slot_at(c), c)).leaf is None,
        now.slot_at(entry_base(src.slot_at(c), c)).level <= dst.slot_at(
            entry_base(src.slot_at(c), c),
        ).level,
        now.slot_at(entry_base(src.slot_at(c), c)).level >= src.slot_at(c).level,
        forall|y: nat|
            first <= y < c && #[trigger] maps_page(src, y) ==> now.slot_at(y)
                == shared_slot(src.slot_at(y)),
    ensures
        missing_tables(now.slot_at(entry_base(src.slot_at(c), c)), src.slot_at(c).level)
            == entry_table(dst, src, first, c, 0) + entry_table(dst, src, first, c, 1),
{
    reveal(grown_for);
    let at = src.slot_at(c);
    let l = at.level;
    let base = entry_base(at, c);
    lemma_path_to_slot(src.0.entries@, 2, c, v);
    lemma_path_to_slot(dst.0.entries@, 2, base, v);
    lemma_path_to_slot(now.0.entries@, 2, base, w);
    lemma_entry_base(c, l);
    assert(same_region(base, c, l));
    let here = now.slot_at(base);
    let old = dst.slot_at(base);
    assert forall|j: nat| l <= j < old.level && j < 2 implies (j < here.level <==> #[trigger]
        entry_table(dst, src, first, c, j) == 1) by {
        lemma_region_up(base, c, l, j + 1);
        if exists|y: nat|
            first <= y < c && #[trigger] maps_page(src, y) && same_region(c, y, j + 1) {
            let y = choose|y: nat|
                first <= y < c && #[trigger] maps_page(src, y) && same_region(c, y, j + 1);
            assert(same_region(y, c, j + 1));
            lemma_same_table(src, v, y, c, j);
            assert(now.slot_at(y).level <= j);
            assert(same_region(base, y, j + 1));
            lemma_same_table(now, w, base, y, j);
        } else if here.level <= j {
            let y = choose|y: nat|
                first <= y < c && #[trigger] maps_page(src, y) && same_region(
                    base,
                    y,
                    here.level + 1,
                );
            lemma_region_up(base, y, here.level + 1, j + 1);
            assert(same_region(c, y, j + 1));
        }
    }
    assert(l <= 0 < old.level ==> (0 < here.level <==> entry_table(dst, src, first, c, 0) == 1));
    assert(l <= 1 < old.level ==> (1 < here.level <==> entry_table(dst, src, first, c, 1) == 1));
}

/// Whether the tables for the pages from `first` up to `cur` are what was taken from the
/// free list.
#[verifier::opaque]
pub open spec fn tables_taken(
    dst: PageTable,
    src: PageTable,
    v: PagesView,
    w: PagesView,
    first: nat,
    cur: nat,
) -> bool {
    &&& tables_for(dst, src, first, first, cur) <= v.free.len()
    &&& w.free == v.free.skip(tables_for(dst, src, first, first, cur) as int)
}

/// Nothing is taken for no pages.
pub proof fn lemma_taken_none(dst: PageTable, src: PageTable, v: PagesView, first: nat)
    ensures
        tables_taken(dst, src, v, v, first, first),
        grown_for(dst, dst, src, first, first),
{
    reveal(tables_taken);
    reveal(grown_for);
    assert(v.free.skip(0) =~= v.free);
}

/// Nothing is taken for an entry that maps no page.
pub proof fn lemma_taken_skip(
    dst: PageTable,
    now: PageTable,
    src: PageTable,
    v: PagesView,
    w: PagesView,
    first: nat,
    c: nat,
)
    requires
        src.wf(v),
        first <= c,
        c > first ==> exists|z: nat|
            #![trigger src.slot_at(z)]
            first <= z < c && c == entry_end(src, z),
        src.slot_at(c).leaf is None,
        tables_taken(dst, src, v, w, first, c),
        grown_for(dst, now, src, first, c),
    ensures
        tables_taken(dst, src, v, w, first, entry_end(src, c)),
        grown_for(dst, now, src, first, entry_end(src, c)),
{
    reveal(tables_taken);
    reveal(grown_for);
    lemma_tables_step(dst, src, v, first, first, c);
    lemma_same_entry(src, v, c, c);
}

/// What one more page takes.
pub proof fn lemma_taken_step(
    dst: PageTable,
    src: PageTable,
    v: PagesView,
    now: PageTable,
    w: PagesView,
    after: PageTable,
    w2: PagesView,
    first: nat,
    c: nat,
    page: LeafPage,
    r: Result<(), KernelError>,
)
    requires
        dst.wf(v),
        src.wf(v),
        now.wf(w),
        first <= c <= VA_MAX,
        c > first ==> exists|z: nat|
            #![trigger src.slot_at(z)]
            first <= z < c && c == entry_end(src, z),
        src.slot_at(c).leaf == Some(page),
        shares(src, dst, now, first, c),
        !entry_touched(src, entry_base(src.slot_at(c), c), first, c),
        dst.slot_at(entry_base(src.slot_at(c), c)).leaf is None,
        now.slot_at(entry_base(src.slot_at(c), c)).level >= src.slot_at(c).level,
        tables_taken(dst, src, v, w, first, c),
        grown_for(dst, now, src, first, c),
        mapped_page(
            now,
            w.retained(page.pa.0 as nat),
            after,
            w2,
            src.slot_at(c).level,
            VirtAddr(entry_base(src.slot_at(c), c) as u64),
            MapTarget::FixedAddr { addr: page.pa },
            page.flags.shared(),
            r,
        ),
    ensures
        r is Ok ==> tables_taken(dst, src, v, w2, first, entry_end(src, c)) && grown_for(
            dst,
            after,
            src,
            first,
            entry_end(src, c),
        ),
        r is Err ==> {
            &&& w2.free.len() == 0
            &&& tables_for(dst, src, first, first, c) <= v.free.len()
            &&& v.free.len() < tables_for(dst, src, first, first, entry_end(src, c))
        },
{
    let at = src.slot_at(c);
    let base = entry_base(at, c);
    lemma_path_to_slot(src.0.entries@, 2, c, v);
    lemma_entry_base(c, at.level);
    lemma_same_entry(src, v, c, c);
    lemma_tables_step(dst, src, v, first, first, c);
    assert(same_region(base, c, at.level));
    assert forall|y: nat| first <= y < c && #[trigger] maps_page(src, y) implies now.slot_at(y)
        == shared_slot(src.slot_at(y)) by {
        assert(same_region(y, y, src.slot_at(y).level));
        assert(entry_touched(src, y, first, c));
    }
    assert(now.slot_at(base).leaf is None);
    assert(now.slot_at(base).level <= dst.slot_at(base).level) by {
        reveal(grown_for);
    }
    lemma_missing_for(dst, now, w, src, v, first, c);
    reveal(tables_taken);
    let n = tables_for(dst, src, first, first, c) as int;
    let m = missing_tables(now.slot_at(base), at.level) as int;
    assert(w.retained(page.pa.0 as nat).free == w.free);
    if r is Ok {
        assert(v.free.skip(n).skip(m) =~= v.free.skip(n + m));
        assert(grown_for(dst, after, src, first, entry_end(src, c))) by {
            reveal(grown_for);
            assert(maps_page(src, c));
            assert forall|x: nat|
                x <= VA_MAX && (#[trigger] after.slot_at(x)).leaf is None && after.slot_at(x)
                    != dst.slot_at(x) implies {
                &&& after.slot_at(x).level <= dst.slot_at(x).level
                &&& exists|y: nat|
                    first <= y < entry_end(src, c) && #[trigger] maps_page(src, y) && same_region(
                        x,
                        y,
                        after.slot_at(x).level + 1,
                    )
            } by {
                let mid = now.slot_at(x);
                if after.slot_at(x) != mid {
                    lemma_path_to_slot(now.0.entries@, 2, x, w);
                    lemma_region_up(base, c, at.level, after.slot_at(x).level + 1);
                    assert(same_region(x, c, after.slot_at(x).level + 1));
                } else {
                    let y = choose|y: nat|
                        first <= y < c && #[trigger] maps_page(src, y) && same_region(
                            x,
                            y,
                            mid.level + 1,
                        );
                    assert(maps_page(src, y));
                }
            }
        }
    }
}

} // verus!
