//! The tree of tables that makes up a page table.
use super::super::addr::{idx_at, PhysAddr, VirtAddr};
use super::super::page_manager::{lemma_allocated_wf, PageFrameAllocator, PageManager, PagesView};
use crate::error::KernelError;
use super::super::{level_size, lemma_level_sizes, PAGE_SIZE};
use super::entry::PtEntryFlags;
use vstd::prelude::*;

verus! {

/// An entry of a page table.
pub enum PtEntry {
    /// Nothing is mapped here.
    Invalid,
    /// A table of the next lower level.
    Table { table: Box<PageTableEntries> },
    /// A page.
    Leaf { pa: PhysAddr, flags: PtEntryFlags },
}

/// The entries in a page table.
pub struct PageTableEntries {
    /// The page that holds this table.
    pub pa: PhysAddr,
    pub entries: Vec<PtEntry>,
}

/// A page that is mapped.
#[derive(Debug, Clone, Copy, PartialEq, Eq, Structural)]
pub struct LeafPage {
    pub pa: PhysAddr,
    pub flags: PtEntryFlags,
}

/// What a page table says of an address: the level of the entry at which the
/// walk ends, and the page that this entry maps, if any.
pub struct Slot {
    pub level: nat,
    pub leaf: Option<LeafPage>,
}

/// Whether two addresses share the entries of a page table of level `level` and
/// above.
pub open spec fn same_region(x: nat, y: nat, level: nat) -> bool {
    x / level_size(level) == y / level_size(level)
}

/// Where the walk for an address ends in a table of level `level`.
pub open spec fn slot(s: Seq<PtEntry>, level: nat, va: nat) -> Slot
    decreases level, 1nat,
{
    slot_of_entry(s[idx_at(va, level) as int], level, va)
}

/// Where the walk for an address ends from an entry of a table of level `level`.
pub open spec fn slot_of_entry(e: PtEntry, level: nat, va: nat) -> Slot
    decreases level, 0nat,
{
    match e {
        PtEntry::Invalid => Slot { level, leaf: None },
        PtEntry::Leaf { pa, flags } => Slot { level, leaf: Some(LeafPage { pa, flags }) },
        PtEntry::Table { table } => if level == 0 {
            Slot { level, leaf: None }
        } else {
            slot(table.entries@, (level - 1) as nat, va)
        },
    }
}

/// Whether a table of level `level` is in order: it has 512 entries, and each
/// of them is in order.
pub open spec fn tree_wf(s: Seq<PtEntry>, level: nat, v: PagesView) -> bool
    decreases level, 1nat,
{
    &&& s.len() == 512
    &&& forall|i: int| 0 <= i < 512 ==> entry_wf(#[trigger] s[i], level, v)
}

/// Whether an entry of a table of level `level` is in order: a page is aligned
/// and can be accessed in some way; a lower table stands in a page of the heap.
pub open spec fn entry_wf(e: PtEntry, level: nat, v: PagesView) -> bool
    decreases level, 0nat,
{
    match e {
        PtEntry::Invalid => true,
        PtEntry::Leaf { pa, flags } => {
            &&& pa.0 as nat % level_size(level) == 0
            &&& pa.0 % 4096 == 0
            &&& flags.v
            &&& flags.accessible()
        },
        PtEntry::Table { table } => {
            &&& level > 0
            &&& v.is_page(table.pa.0 as nat)
            &&& tree_wf(table.entries@, (level - 1) as nat, v)
        },
    }
}

/// How often the first `n` entries of a table of level `level` use the page at `pa`.
pub open spec fn uses(s: Seq<PtEntry>, level: nat, n: nat, pa: nat) -> nat
    decreases level, n + 1,
{
    if n == 0 {
        0
    } else {
        uses(s, level, (n - 1) as nat, pa) + uses_entry(s[n - 1], level, pa)
    }
}

/// How often an entry of a table of level `level` uses the page at `pa`: a page
/// is used by the entry that maps it, and by the table that it holds.
pub open spec fn uses_entry(e: PtEntry, level: nat, pa: nat) -> nat
    decreases level, 0nat,
{
    match e {
        PtEntry::Invalid => 0,
        PtEntry::Leaf { pa: leaf, .. } => if leaf.0 == pa {
            1
        } else {
            0
        },
        PtEntry::Table { table } => (if table.pa.0 == pa {
            1nat
        } else {
            0
        }) + if level == 0 {
            0
        } else {
            uses(table.entries@, (level - 1) as nat, 512, pa)
        },
    }
}

/// How often a page can be given back until it is free.
pub open spec fn budget(v: PagesView, pa: nat) -> nat {
    if v.count(pa) == u32::MAX {
        1
    } else {
        v.count(pa) as nat
    }
}

/// Whether the walk for `va` from a table of level `cur` leads through tables
/// down to level `level`.
pub open spec fn path(s: Seq<PtEntry>, cur: nat, level: nat, va: nat) -> bool
    decreases cur,
{
    cur > level ==> {
        let e = s[idx_at(va, cur) as int];
        e is Table && path(e->table.entries@, (cur - 1) as nat, level, va)
    }
}

/// The entry of level `level` on the walk for `va` from a table of level `cur`.
pub open spec fn entry_at(s: Seq<PtEntry>, cur: nat, level: nat, va: nat) -> PtEntry
    decreases cur,
{
    let e = s[idx_at(va, cur) as int];
    if cur <= level {
        e
    } else {
        match e {
            PtEntry::Table { table } => entry_at(table.entries@, (cur - 1) as nat, level, va),
            _ => e,
        }
    }
}

/// How many tables are missing below the end of a walk to get down to level `level`.
pub open spec fn missing_tables(end: Slot, level: nat) -> nat {
    if end.leaf is None && end.level > level {
        (end.level - level) as nat
    } else {
        0
    }
}

/// Whether `t` is `s` with the entry of level `level` on the walk for `va`
/// replaced by `e`.
pub open spec fn is_put(
    s: Seq<PtEntry>,
    t: Seq<PtEntry>,
    cur: nat,
    level: nat,
    va: nat,
    e: PtEntry,
) -> bool
    decreases cur,
{
    let i = idx_at(va, cur) as int;
    &&& t.len() == s.len()
    &&& forall|j: int| 0 <= j < s.len() && j != i ==> #[trigger] t[j] == s[j]
    &&& if cur <= level {
        t[i] == e
    } else {
        &&& s[i] is Table
        &&& t[i] is Table
        &&& t[i]->table.pa == s[i]->table.pa
        &&& is_put(
            s[i]->table.entries@,
            t[i]->table.entries@,
            (cur - 1) as nat,
            level,
            va,
            e,
        )
    }
}

/// The regions of one level lie within those of the next.
proof fn lemma_region_nested(x: nat, level: nat)
    requires
        level <= 2,
    ensures
        x / level_size(level + 1) == (x / level_size(level)) / 512,
{
    lemma_level_sizes();
    if level == 0 {
        assert(x / 0x20_0000 == (x / 0x1000) / 512);
    } else if level == 1 {
        assert(x / 0x4000_0000 == (x / 0x20_0000) / 512);
    } else {
        assert(x / 0x80_0000_0000 == (x / 0x4000_0000) / 512);
    }
}

/// Addresses that share an entry of a table share its index, and within one
/// table nothing else does.
pub proof fn lemma_region(x: nat, va: nat, level: nat)
    requires
        level <= 2,
        same_region(x, va, level + 1),
    ensures
        idx_at(x, level) < 512,
        idx_at(va, level) < 512,
        idx_at(x, level) == idx_at(va, level) <==> same_region(x, va, level),
{
    lemma_region_nested(x, level);
    lemma_region_nested(va, level);
    let p = x / level_size(level);
    let q = va / level_size(level);
    assert(p / 512 == q / 512 && p % 512 == q % 512 ==> p == q);
}

/// Addresses that share an entry share those of higher levels.
pub proof fn lemma_region_up(x: nat, va: nat, low: nat, high: nat)
    requires
        low <= high <= 3,
        same_region(x, va, low),
    ensures
        same_region(x, va, high),
    decreases high - low,
{
    if low < high {
        lemma_region_nested(x, low);
        lemma_region_nested(va, low);
        lemma_region_up(x, va, low + 1, high);
    }
}

/// After an entry is replaced, the walk for the addresses below it goes through
/// the new entry, and no other walk changes.
pub proof fn lemma_put_slot(
    s: Seq<PtEntry>,
    t: Seq<PtEntry>,
    cur: nat,
    level: nat,
    va: nat,
    e: PtEntry,
    x: nat,
    v: PagesView,
)
    requires
        level <= cur <= 2,
        tree_wf(s, cur, v),
        path(s, cur, level, va),
        is_put(s, t, cur, level, va, e),
        same_region(x, va, cur + 1),
    ensures
        same_region(x, va, level) ==> slot(t, cur, x) == slot_of_entry(e, level, x),
        !same_region(x, va, level) ==> slot(t, cur, x) == slot(s, cur, x),
    decreases cur,
{
    lemma_region(x, va, cur);
    let i = idx_at(va, cur) as int;
    if cur > level {
        assert(entry_wf(s[i], cur, v));
        if same_region(x, va, cur) {
            lemma_put_slot(
                s[i]->table.entries@,
                t[i]->table.entries@,
                (cur - 1) as nat,
                level,
                va,
                e,
                x,
                v,
            );
        } else if same_region(x, va, level) {
            lemma_region_up(x, va, level, cur);
        }
    }
}

/// Replacing an entry by one that is in order keeps the table in order.
pub proof fn lemma_put_wf(
    s: Seq<PtEntry>,
    t: Seq<PtEntry>,
    cur: nat,
    level: nat,
    va: nat,
    e: PtEntry,
    v: PagesView,
)
    requires
        level <= cur <= 2,
        tree_wf(s, cur, v),
        is_put(s, t, cur, level, va, e),
        entry_wf(e, level, v),
    ensures
        tree_wf(t, cur, v),
    decreases cur,
{
    let i = idx_at(va, cur) as int;
    lemma_region(va, va, cur);
    assert(entry_wf(s[i], cur, v));
    if cur > level {
        lemma_put_wf(
            s[i]->table.entries@,
            t[i]->table.entries@,
            (cur - 1) as nat,
            level,
            va,
            e,
            v,
        );
    }
    assert forall|j: int| 0 <= j < 512 implies entry_wf(#[trigger] t[j], cur, v) by {
        assert(entry_wf(s[j], cur, v));
    }
}

/// The sum over the entries of a table changes with the one that changes.
proof fn lemma_uses_update(s: Seq<PtEntry>, t: Seq<PtEntry>, level: nat, n: nat, i: int, pa: nat)
    requires
        t.len() == s.len(),
        n <= s.len(),
        0 <= i < s.len(),
        forall|j: int| 0 <= j < s.len() && j != i ==> #[trigger] t[j] == s[j],
    ensures
        i < n ==> uses(t, level, n, pa) == uses(s, level, n, pa) - uses_entry(s[i], level, pa)
            + uses_entry(t[i], level, pa),
        i >= n ==> uses(t, level, n, pa) == uses(s, level, n, pa),
    decreases n,
{
    if n > 0 {
        lemma_uses_update(s, t, level, (n - 1) as nat, i, pa);
    }
}

/// Every entry uses a page at most as often as the table does.
pub proof fn lemma_uses_entry(s: Seq<PtEntry>, level: nat, n: nat, i: int, pa: nat)
    requires
        0 <= i < n <= s.len(),
    ensures
        uses_entry(s[i], level, pa) <= uses(s, level, n, pa),
    decreases n,
{
    if i < n - 1 {
        lemma_uses_entry(s, level, (n - 1) as nat, i, pa);
    }
}

/// Replacing an entry gives the uses of the old one for those of the new one.
pub proof fn lemma_put_uses(
    s: Seq<PtEntry>,
    t: Seq<PtEntry>,
    cur: nat,
    level: nat,
    va: nat,
    e: PtEntry,
    v: PagesView,
    pa: nat,
)
    requires
        level <= cur <= 2,
        tree_wf(s, cur, v),
        path(s, cur, level, va),
        is_put(s, t, cur, level, va, e),
    ensures
        uses(t, cur, 512, pa) == uses(s, cur, 512, pa) - uses_entry(
            entry_at(s, cur, level, va),
            level,
            pa,
        ) + uses_entry(e, level, pa),
        uses_entry(entry_at(s, cur, level, va), level, pa) <= uses(s, cur, 512, pa),
    decreases cur,
{
    let i = idx_at(va, cur) as int;
    lemma_region(va, va, cur);
    lemma_uses_update(s, t, cur, 512, i, pa);
    lemma_uses_entry(s, cur, 512, i, pa);
    assert(entry_wf(s[i], cur, v));
    if cur > level {
        lemma_put_uses(
            s[i]->table.entries@,
            t[i]->table.entries@,
            (cur - 1) as nat,
            level,
            va,
            e,
            v,
            pa,
        );
    }
}

/// The walk for `va` ends at the entry of its level.
pub proof fn lemma_path_to_slot(s: Seq<PtEntry>, cur: nat, va: nat, v: PagesView)
    requires
        cur <= 2,
        tree_wf(s, cur, v),
    ensures
        slot(s, cur, va).level <= cur,
        path(s, cur, slot(s, cur, va).level, va),
        !(entry_at(s, cur, slot(s, cur, va).level, va) is Table),
        entry_wf(
            entry_at(s, cur, slot(s, cur, va).level, va),
            slot(s, cur, va).level,
            v,
        ),
        slot(s, cur, va) == slot_of_entry(
            entry_at(s, cur, slot(s, cur, va).level, va),
            slot(s, cur, va).level,
            va,
        ),
    decreases cur,
{
    let i = idx_at(va, cur) as int;
    lemma_region(va, va, cur);
    assert(entry_wf(s[i], cur, v));
    match s[i] {
        PtEntry::Table { table } => {
            lemma_path_to_slot(table.entries@, (cur - 1) as nat, va, v);
        },
        _ => {},
    }
}

/// The walk for `va` goes through the entry that a path leads to.
pub proof fn lemma_slot_at_path(s: Seq<PtEntry>, cur: nat, level: nat, va: nat, v: PagesView)
    requires
        level <= cur <= 2,
        tree_wf(s, cur, v),
        path(s, cur, level, va),
    ensures
        slot(s, cur, va) == slot_of_entry(entry_at(s, cur, level, va), level, va),
        entry_wf(entry_at(s, cur, level, va), level, v),
        entry_at(s, cur, level, va) is Table ==> slot(s, cur, va).level < level,
    decreases cur,
{
    let i = idx_at(va, cur) as int;
    lemma_region(va, va, cur);
    assert(entry_wf(s[i], cur, v));
    match s[i] {
        PtEntry::Table { table } => {
            if cur > level {
                lemma_slot_at_path(table.entries@, (cur - 1) as nat, level, va, v);
            } else {
                lemma_path_to_slot(table.entries@, (cur - 1) as nat, va, v);
            }
        },
        _ => {},
    }
}

/// All addresses that share the entry at which a walk ends have the same walk.
pub proof fn lemma_slot_region(s: Seq<PtEntry>, cur: nat, va: nat, x: nat, v: PagesView)
    requires
        cur <= 2,
        tree_wf(s, cur, v),
        same_region(x, va, slot(s, cur, va).level),
    ensures
        slot(s, cur, x) == slot(s, cur, va),
    decreases cur,
{
    lemma_path_to_slot(s, cur, va, v);
    lemma_region_up(x, va, slot(s, cur, va).level, cur);
    lemma_region_up(x, va, cur, cur + 1);
    lemma_region(x, va, cur);
    let i = idx_at(va, cur) as int;
    assert(entry_wf(s[i], cur, v));
    match s[i] {
        PtEntry::Table { table } => {
            lemma_slot_region(table.entries@, (cur - 1) as nat, va, x, v);
        },
        _ => {},
    }
}

/// A table without valid entries maps nothing and uses nothing.
pub proof fn lemma_empty(s: Seq<PtEntry>, level: nat, n: nat, va: nat, pa: nat)
    requires
        s.len() == 512,
        n <= 512,
        forall|i: int| 0 <= i < 512 ==> #[trigger] s[i] == PtEntry::Invalid,
    ensures
        slot(s, level, va) == (Slot { level, leaf: None }),
        uses(s, level, n, pa) == 0,
    decreases n,
{
    assert(0 <= idx_at(va, level) < 512);
    if n > 0 {
        lemma_empty(s, level, (n - 1) as nat, va, pa);
        assert(uses_entry(s[n - 1], level, pa) == 0);
    }
}

/// Whether an account of pages has taken pages off the list of free ones and
/// left the pages in use alone.
pub open spec fn took(v: PagesView, w: PagesView, n: nat) -> bool {
    &&& w.same_heap(v)
    &&& n <= v.free.len()
    &&& w.free == v.free.skip(n as int)
    &&& forall|p: nat|
        v.is_page(p) && v.count(p) > 0 ==> #[trigger] w.count(p) == v.count(p) && w.page_bytes(p)
            == v.page_bytes(p)
}

/// Whether what is counted beyond the uses of a table of level `level` has
/// stayed the same.
pub open spec fn balanced(
    v: PagesView,
    s: Seq<PtEntry>,
    w: PagesView,
    t: Seq<PtEntry>,
    level: nat,
) -> bool {
    forall|p: nat|
        v.is_page(p) ==> #[trigger] budget(w, p) - uses(t, level, 512, p) == budget(v, p) - uses(
            s,
            level,
            512,
            p,
        )
}

/// The order of a table depends on no more than where the heap lies.
pub proof fn lemma_wf_heap(s: Seq<PtEntry>, level: nat, v: PagesView, w: PagesView)
    requires
        tree_wf(s, level, v),
        w.same_heap(v),
    ensures
        tree_wf(s, level, w),
    decreases level,
{
    assert forall|i: int| 0 <= i < 512 implies entry_wf(#[trigger] s[i], level, w) by {
        assert(entry_wf(s[i], level, v));
        match s[i] {
            PtEntry::Table { table } => {
                lemma_wf_heap(table.entries@, (level - 1) as nat, v, w);
            },
            _ => {},
        }
    }
}

/// Taking pages twice is taking them all.
pub proof fn lemma_took_twice(u: PagesView, v: PagesView, w: PagesView, m: nat, n: nat)
    requires
        u.wf(),
        took(u, v, m),
        took(v, w, n),
    ensures
        took(u, w, m + n),
{
    assert(w.free =~= u.free.skip((m + n) as int));
    assert forall|p: nat| u.is_page(p) && u.count(p) > 0 implies #[trigger] w.count(p) == u.count(p)
        && w.page_bytes(p) == u.page_bytes(p) by {
        assert(v.count(p) == u.count(p));
    }
}

/// Handing out a page takes one page.
pub proof fn lemma_allocated_took(v: PagesView, count: u32, fill: u8)
    requires
        v.wf(),
        v.free.len() > 0,
        count > 0,
    ensures
        took(v, v.allocated(count, fill), 1),
{
    lemma_allocated_wf(v, count, fill);
    let w = v.allocated(count, fill);
    assert(w.free =~= v.free.skip(1));
    assert forall|p: nat| v.is_page(p) && v.count(p) > 0 implies #[trigger] w.count(p) == v.count(p)
        && w.page_bytes(p) == v.page_bytes(p) by {
        assert(p != v.free[0]);
    }
}

/// The sum over the first entries of a table depends on no others.
pub proof fn lemma_uses_prefix(s: Seq<PtEntry>, t: Seq<PtEntry>, level: nat, n: nat, pa: nat)
    requires
        n <= s.len(),
        n <= t.len(),
        forall|i: int| 0 <= i < n ==> #[trigger] s[i] == t[i],
    ensures
        uses(s, level, n, pa) == uses(t, level, n, pa),
    decreases n,
{
    if n > 0 {
        lemma_uses_prefix(s, t, level, (n - 1) as nat, pa);
    }
}

impl PageTableEntries {
    /// The entry of level `level` on the walk for `va`.
    pub(super) fn entry(&self, cur: usize, level: usize, va: VirtAddr, Ghost(v): Ghost<PagesView>) -> (r:
        &PtEntry)
        requires
            level <= cur <= 2,
            tree_wf(self.entries@, cur as nat, v),
            path(self.entries@, cur as nat, level as nat, va.0 as nat),
        ensures
            *r == entry_at(self.entries@, cur as nat, level as nat, va.0 as nat),
        decreases cur,
    {
        let i: usize = va.level_idx(cur) as usize;
        assert(entry_wf(self.entries@[i as int], cur as nat, v));
        if cur > level {
            match &self.entries[i] {
                PtEntry::Table { table } => table.entry(cur - 1, level, va, Ghost(v)),
                other => other,
            }
        } else {
            &self.entries[i]
        }
    }

    /// Where the walk for an address ends.
    pub(super) fn walk(&self, cur: usize, va: VirtAddr, Ghost(v): Ghost<PagesView>) -> (r: (
        usize,
        Option<LeafPage>,
    ))
        requires
            cur <= 2,
            tree_wf(self.entries@, cur as nat, v),
        ensures
            slot(self.entries@, cur as nat, va.0 as nat) == (Slot { level: r.0 as nat, leaf: r.1 }),
            r.0 <= cur,
        decreases cur,
    {
        let i: usize = va.level_idx(cur) as usize;
        assert(entry_wf(self.entries@[i as int], cur as nat, v));
        match &self.entries[i] {
            PtEntry::Invalid => (cur, None),
            PtEntry::Leaf { pa, flags } => (cur, Some(LeafPage { pa: *pa, flags: *flags })),
            PtEntry::Table { table } => table.walk(cur - 1, va, Ghost(v)),
        }
    }

    /// The entry of level `level` on the walk for `va`, to be changed.
    pub(super) fn entry_mut(&mut self, cur: usize, level: usize, va: VirtAddr, Ghost(v): Ghost<PagesView>) -> (r:
        &mut PtEntry)
        requires
            level <= cur <= 2,
            tree_wf(old(self).entries@, cur as nat, v),
            path(old(self).entries@, cur as nat, level as nat, va.0 as nat),
        ensures
            *r == entry_at(old(self).entries@, cur as nat, level as nat, va.0 as nat),
            final(self).pa == old(self).pa,
            is_put(
                old(self).entries@,
                final(self).entries@,
                cur as nat,
                level as nat,
                va.0 as nat,
                *final(r),
            ),
        decreases cur,
    {
        let i: usize = va.level_idx(cur) as usize;
        assert(entry_wf(self.entries@[i as int], cur as nat, v));
        if cur > level {
            match &mut self.entries[i] {
                PtEntry::Table { table } => table.entry_mut(cur - 1, level, va, Ghost(v)),
                other => other,
            }
        } else {
            &mut self.entries[i]
        }
    }

    /// Allocates a new empty page table.
    pub fn try_allocate(manager: &mut PageManager) -> (r: Result<Box<Self>, KernelError>)
        requires
            old(manager).wf(),
        ensures
            final(manager).wf(),
            old(manager)@.free.len() == 0 ==> {
                &&& r == Err::<Box<Self>, KernelError>(KernelError::NoFreePage)
                &&& final(manager)@ == old(manager)@
            },
            old(manager)@.free.len() > 0 ==> {
                &&& r matches Ok(table)
                &&& table.pa == PhysAddr(old(manager)@.free[0])
                &&& table.entries@.len() == 512
                &&& forall|i: int| 0 <= i < 512 ==> #[trigger] table.entries@[i] == PtEntry::Invalid
                &&& final(manager)@ == old(manager)@.allocated(u32::MAX, 0)
            },
    {
        let pa: PhysAddr = PageFrameAllocator.allocate_zeroed(manager, PAGE_SIZE, PAGE_SIZE)?;
        let mut entries: Vec<PtEntry> = Vec::new();
        let mut i: usize = 0;
        while i < 512
            invariant
                i <= 512,
                entries@.len() == i,
                forall|j: int| 0 <= j < i ==> #[trigger] entries@[j] == PtEntry::Invalid,
            decreases 512 - i,
        {
            entries.push(PtEntry::Invalid);
            i = i + 1;
        }
        Ok(Box::new(PageTableEntries { pa, entries }))
    }

    /// Makes the tables that the walk for `va` needs to get down to level `level`.
    ///
    /// Nothing is mapped or unmapped by this. If the memory runs out, the tables
    /// made so far stay.
    pub fn create_tables(
        &mut self,
        cur: usize,
        level: usize,
        va: VirtAddr,
        manager: &mut PageManager,
    ) -> (r: Result<(), KernelError>)
        requires
            old(manager).wf(),
            level <= cur <= 2,
            tree_wf(old(self).entries@, cur as nat, old(manager)@),
            slot(old(self).entries@, cur as nat, va.0 as nat).leaf is Some ==> slot(
                old(self).entries@,
                cur as nat,
                va.0 as nat,
            ).level <= level,
        ensures
            final(manager).wf(),
            final(self).pa == old(self).pa,
            tree_wf(final(self).entries@, cur as nat, final(manager)@),
            forall|x: nat|
                (#[trigger] slot(final(self).entries@, cur as nat, x)).leaf == slot(
                    old(self).entries@,
                    cur as nat,
                    x,
                ).leaf,
            forall|x: nat|
                ({
                    let before = slot(old(self).entries@, cur as nat, x);
                    let after = #[trigger] slot(final(self).entries@, cur as nat, x);
                    after == before || (before.leaf is None && level <= after.level
                        <= before.level && (same_region(x, va.0 as nat, cur as nat + 1)
                        ==> same_region(x, va.0 as nat, after.level + 1)))
                }),
            balanced(
                old(manager)@,
                old(self).entries@,
                final(manager)@,
                final(self).entries@,
                cur as nat,
            ),
            r == (if old(manager)@.free.len() < missing_tables(
                slot(old(self).entries@, cur as nat, va.0 as nat),
                level as nat,
            ) {
                Err::<(), KernelError>(KernelError::NoFreePage)
            } else {
                Ok(())
            }),
            r is Ok ==> path(final(self).entries@, cur as nat, level as nat, va.0 as nat),
            r is Ok && slot(old(self).entries@, cur as nat, va.0 as nat).leaf is None && slot(
                old(self).entries@,
                cur as nat,
                va.0 as nat,
            ).level >= level ==> slot(final(self).entries@, cur as nat, va.0 as nat).level == level,
            r is Ok ==> took(
                old(manager)@,
                final(manager)@,
                missing_tables(slot(old(self).entries@, cur as nat, va.0 as nat), level as nat),
            ),
            r is Err ==> took(old(manager)@, final(manager)@, old(manager)@.free.len()),
        decreases cur,
    {
        let ghost s = self.entries@;
        let ghost v = manager@;
        let ghost c = cur as nat;
        let i: usize = va.level_idx(cur) as usize;
        proof {
            manager.lemma_wf();
            assert(entry_wf(s[i as int], c, v));
            lemma_path_to_slot(s, c, va.0 as nat, v);
            assert(v.free.skip(0) =~= v.free);
        }
        if cur <= level {
            return Ok(());
        }
        let invalid: bool = match &self.entries[i] {
            PtEntry::Invalid => true,
            _ => false,
        };
        if invalid {
            let table = match Self::try_allocate(manager) {
                Ok(table) => table,
                Err(e) => {
                    return Err(e);
                },
            };
            let ghost sub = table.entries@;
            let ghost pa = table.pa;
            self.entries.set(i, PtEntry::Table { table });
            proof {
                let w = manager@;
                lemma_allocated_wf(v, u32::MAX, 0);
                lemma_allocated_took(v, u32::MAX, 0);
                lemma_wf_heap(s, c, v, w);
                assert(tree_wf(sub, (c - 1) as nat, w));
                let t = self.entries@;
                assert forall|j: int| 0 <= j < 512 implies entry_wf(#[trigger] t[j], c, w) by {
                    assert(entry_wf(s[j], c, w));
                }
                assert forall|x: nat|
                    (#[trigger] slot(t, c, x)).leaf == slot(s, c, x).leaf && (slot(t, c, x) == slot(
                        s,
                        c,
                        x,
                    ) || (slot(s, c, x).leaf is None && level <= slot(t, c, x).level <= slot(
                        s,
                        c,
                        x,
                    ).level && (same_region(x, va.0 as nat, c + 1) ==> same_region(
                        x,
                        va.0 as nat,
                        slot(t, c, x).level + 1,
                    )))) by {
                    lemma_empty(sub, (c - 1) as nat, 512, x, 0);
                    assert(0 <= idx_at(x, c) < 512);
                    if same_region(x, va.0 as nat, c + 1) {
                        lemma_region(x, va.0 as nat, c);
                    }
                }
                lemma_empty(sub, (c - 1) as nat, 512, va.0 as nat, 0);
                assert forall|p: nat| v.is_page(p) implies #[trigger] budget(w, p) - uses(
                    t,
                    c,
                    512,
                    p,
                ) == budget(v, p) - uses(s, c, 512, p) by {
                    lemma_empty(sub, (c - 1) as nat, 512, 0, p);
                    lemma_uses_update(s, t, c, 512, i as int, p);
                }
            }
        }
        let ghost s1 = self.entries@;
        let ghost v1 = manager@;
        let ghost taken: nat = if invalid {
            1
        } else {
            0
        };
        proof {
            manager.lemma_wf();
            assert(entry_wf(s1[i as int], c, v1));
        }
        let r: Result<(), KernelError> = match &mut self.entries[i] {
            PtEntry::Table { table } => table.create_tables(cur - 1, level, va, manager),
            _ => Ok(()),
        };
        proof {
            let t = self.entries@;
            let w = manager@;
            let sub = s1[i as int]->table.entries@;
            let sub2 = t[i as int]->table.entries@;
            manager.lemma_wf();
            lemma_wf_heap(s1, c, v1, w);
            assert forall|j: int| 0 <= j < 512 implies entry_wf(#[trigger] t[j], c, w) by {
                assert(entry_wf(s1[j], c, w));
            }
            assert forall|x: nat|
                (#[trigger] slot(t, c, x)).leaf == slot(s, c, x).leaf && (slot(t, c, x) == slot(
                    s,
                    c,
                    x,
                ) || (slot(s, c, x).leaf is None && level <= slot(t, c, x).level <= slot(
                    s,
                    c,
                    x,
                ).level && (same_region(x, va.0 as nat, c + 1) ==> same_region(
                    x,
                    va.0 as nat,
                    slot(t, c, x).level + 1,
                )))) by {
                if same_region(x, va.0 as nat, c + 1) {
                    lemma_region(x, va.0 as nat, c);
                }
                assert(slot(s1, c, x).leaf == slot(s, c, x).leaf);
                assert(0 <= idx_at(x, c) < 512);
                assert(slot(sub2, (c - 1) as nat, x).leaf == slot(sub, (c - 1) as nat, x).leaf);
            }
            assert forall|p: nat| v.is_page(p) implies #[trigger] budget(w, p) - uses(t, c, 512, p)
                == budget(v, p) - uses(s, c, 512, p) by {
                lemma_uses_update(s1, t, c, 512, i as int, p);
                assert(budget(v1, p) - uses(s1, c, 512, p) == budget(v, p) - uses(s, c, 512, p));
                assert(budget(w, p) - uses(sub2, (c - 1) as nat, 512, p) == budget(v1, p) - uses(
                    sub,
                    (c - 1) as nat,
                    512,
                    p,
                ));
            }
            if r is Ok {
                lemma_took_twice(
                    v,
                    v1,
                    w,
                    taken,
                    missing_tables(slot(sub, (c - 1) as nat, va.0 as nat), level as nat),
                );
            } else {
                lemma_took_twice(v, v1, w, taken, v1.free.len());
            }
        }
        r
    }
}

/// An entry that maps a page uses it.
proof fn lemma_used_once(s: Seq<PtEntry>, level: nat, x: nat, v: PagesView, p: nat)
    requires
        level <= 2,
        tree_wf(s, level, v),
        slot(s, level, x).leaf is Some,
        slot(s, level, x).leaf->0.pa.0 == p,
    ensures
        uses_entry(s[idx_at(x, level) as int], level, p) >= 1,
        uses(s, level, 512, p) >= 1,
    decreases level,
{
    let i = idx_at(x, level) as int;
    lemma_region(x, x, level);
    assert(entry_wf(s[i], level, v));
    if let PtEntry::Table { table } = s[i] {
        lemma_used_once(table.entries@, (level - 1) as nat, x, v, p);
    }
    lemma_uses_entry(s, level, 512, i, p);
}

/// Two entries of a table use a page no more often than the table does.
proof fn lemma_uses_two(s: Seq<PtEntry>, level: nat, n: nat, i: int, j: int, p: nat)
    requires
        0 <= i < n <= s.len(),
        0 <= j < n,
        i != j,
    ensures
        uses_entry(s[i], level, p) + uses_entry(s[j], level, p) <= uses(s, level, n, p),
    decreases n,
{
    if i == n - 1 {
        lemma_uses_entry(s, level, (n - 1) as nat, j, p);
    } else if j == n - 1 {
        lemma_uses_entry(s, level, (n - 1) as nat, i, p);
    } else {
        lemma_uses_two(s, level, (n - 1) as nat, i, j, p);
    }
}

/// A page that two entries map is used twice.
pub proof fn lemma_used_twice(
    s: Seq<PtEntry>,
    level: nat,
    x: nat,
    y: nat,
    v: PagesView,
    p: nat,
)
    requires
        level <= 2,
        tree_wf(s, level, v),
        same_region(x, y, level + 1),
        slot(s, level, x).leaf is Some,
        slot(s, level, x).leaf->0.pa.0 == p,
        slot(s, level, y).leaf is Some,
        slot(s, level, y).leaf->0.pa.0 == p,
        !same_region(x, y, slot(s, level, x).level),
    ensures
        uses(s, level, 512, p) >= 2,
    decreases level,
{
    let i = idx_at(x, level) as int;
    let j = idx_at(y, level) as int;
    lemma_region(x, y, level);
    assert(entry_wf(s[i], level, v));
    if i == j {
        if let PtEntry::Table { table } = s[i] {
            lemma_used_twice(table.entries@, (level - 1) as nat, x, y, v, p);
        }
        lemma_uses_entry(s, level, 512, i, p);
    } else {
        lemma_used_once(s, level, x, v, p);
        lemma_used_once(s, level, y, v, p);
        lemma_uses_two(s, level, 512, i, j, p);
    }
}

} // verus!
