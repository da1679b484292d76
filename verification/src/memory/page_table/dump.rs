//! A listing of the contents of a page table.
use super::super::addr::{idx_at, PhysAddr, VirtAddr, VA_MAX};
use super::super::page_manager::PagesView;
use super::super::{level_page_size, level_size, lemma_level_sizes};
use super::access::{entry_base, lemma_entry_base};
use super::entry::PtEntryFlags;
use super::laws::law_flag_bits;
use super::range::translate;
use super::tree::{entry_at, lemma_path_to_slot, path, LeafPage, PtEntry};
use super::PageTable;
use vstd::prelude::*;

verus! {

/// Neighbouring entries that map neighbouring pages with the same flags.
#[derive(Debug, Clone, Copy, PartialEq, Eq, Structural)]
pub struct DumpLeaves {
    pub level: usize,
    pub flags: PtEntryFlags,
    /// The address that the first entry maps, and what it maps it to.
    pub start_va: VirtAddr,
    pub start_pa: PhysAddr,
    /// The address that the last entry maps, and what it maps it to.
    pub end_va: VirtAddr,
    pub end_pa: PhysAddr,
}

/// A line of the listing.
#[derive(Debug, Clone, Copy, PartialEq, Eq, Structural)]
pub enum DumpLine {
    /// An entry that leads to another table.
    NonLeaf { level: usize, index: u64, va: VirtAddr, pa: PhysAddr },
    /// Entries that map pages, from the first up to the one beyond the last.
    Leaves {
        level: usize,
        start_index: u64,
        end_index: u64,
        start_va: VirtAddr,
        end_va: VirtAddr,
        start_pa: PhysAddr,
        end_pa: PhysAddr,
        flags: PtEntryFlags,
    },
}

/// An entry of the page table, as the listing comes by it.
pub enum Visit {
    Invalid,
    NonLeaf { level: usize, va: VirtAddr, pa: PhysAddr },
    Leaf { level: usize, va: VirtAddr, page: LeafPage },
}

impl DumpLeaves {
    /// The line for these entries.
    pub open spec fn line(self) -> DumpLine {
        let size = level_size(self.level as nat);
        DumpLine::Leaves {
            level: self.level,
            start_index: idx_at(self.start_va.0 as nat, self.level as nat) as u64,
            end_index: (idx_at(self.end_va.0 as nat, self.level as nat) + 1) as u64,
            start_va: self.start_va,
            end_va: VirtAddr((self.end_va.0 + size) as u64),
            start_pa: self.start_pa,
            end_pa: PhysAddr((self.end_pa.0 + size) as u64),
            flags: self.flags,
        }
    }

    /// Whether the line for these entries can be written.
    pub open spec fn wf(self) -> bool {
        &&& self.level <= 2
        &&& self.end_va.0 + level_size(self.level as nat) <= VA_MAX
        &&& self.end_pa.0 + level_size(self.level as nat) <= u64::MAX
    }

    /// Whether an entry continues these.
    pub open spec fn continued_by(self, level: usize, va: VirtAddr, page: LeafPage) -> bool {
        &&& self.level == level
        &&& self.flags == page.flags
        &&& self.end_va.0 + level_size(level as nat) == va.0
        &&& self.end_pa.0 + level_size(level as nat) == page.pa.0
    }
}

/// Returns the line for a run of entries that map pages.
pub fn leaves_line(leaves: &DumpLeaves) -> (r: DumpLine)
    requires
        leaves.wf(),
    ensures
        r == leaves.line(),
{
    let start_index: u64 = leaves.start_va.level_idx(leaves.level);
    let end_index: u64 = leaves.end_va.level_idx(leaves.level) + 1;
    let size: u64 = level_page_size(leaves.level);
    DumpLine::Leaves {
        level: leaves.level,
        start_index,
        end_index,
        start_va: leaves.start_va,
        end_va: VirtAddr(leaves.end_va.0 + size),
        start_pa: leaves.start_pa,
        end_pa: PhysAddr(leaves.end_pa.0 + size),
        flags: leaves.flags,
    }
}

/// Returns the line for an entry that leads to another table.
pub fn non_leaf_line(level: usize, va: VirtAddr, pa: PhysAddr) -> (r: DumpLine)
    requires
        level <= 2,
    ensures
        r == non_leaf_line_spec(level, va, pa),
{
    DumpLine::NonLeaf { level, index: va.level_idx(level), va, pa }
}

/// The line for an entry that leads to another table.
pub open spec fn non_leaf_line_spec(level: usize, va: VirtAddr, pa: PhysAddr) -> DumpLine {
    DumpLine::NonLeaf { level, index: idx_at(va.0 as nat, level as nat) as u64, va, pa }
}

/// The character for a flag: its letter where it is set, a dash elsewhere.
pub open spec fn flag_char(on: bool, letter: char) -> char {
    if on {
        letter
    } else {
        '-'
    }
}

fn flag_letter(on: bool, letter: char) -> (r: char)
    ensures
        r == flag_char(on, letter),
{
    if on {
        letter
    } else {
        '-'
    }
}

/// One character for each of the flags other than "valid".
pub open spec fn letters(flags: PtEntryFlags) -> Seq<char> {
    seq![
        flag_char(flags.r, 'r'),
        flag_char(flags.w, 'w'),
        flag_char(flags.x, 'x'),
        flag_char(flags.u, 'u'),
        flag_char(flags.g, 'g'),
        flag_char(flags.a, 'a'),
        flag_char(flags.d, 'd'),
        flag_char(flags.c, 'c'),
    ]
}

/// The characters follow the bits of an entry from the second one up: where a bit is set, its
/// letter of `rwxugadc` stands, and elsewhere a dash. So the text tells what the flags are.
pub proof fn law_flags_text(flags: PtEntryFlags, other: PtEntryFlags)
    ensures
        letters(flags).len() == 8,
        letters(flags)[0] == (if (flags.number() / 2) % 2 == 1 { 'r' } else { '-' }),
        letters(flags)[1] == (if (flags.number() / 4) % 2 == 1 { 'w' } else { '-' }),
        letters(flags)[2] == (if (flags.number() / 8) % 2 == 1 { 'x' } else { '-' }),
        letters(flags)[3] == (if (flags.number() / 16) % 2 == 1 { 'u' } else { '-' }),
        letters(flags)[4] == (if (flags.number() / 32) % 2 == 1 { 'g' } else { '-' }),
        letters(flags)[5] == (if (flags.number() / 64) % 2 == 1 { 'a' } else { '-' }),
        letters(flags)[6] == (if (flags.number() / 128) % 2 == 1 { 'd' } else { '-' }),
        letters(flags)[7] == (if (flags.number() / 256) % 2 == 1 { 'c' } else { '-' }),
        letters(flags) == letters(other) ==> flags == (PtEntryFlags { v: flags.v, ..other }),
{
    law_flag_bits(flags, flags);
    let a = letters(flags);
    let b = letters(other);
    if a == b {
        assert(a[0] == b[0] && a[1] == b[1] && a[2] == b[2] && a[3] == b[3]);
        assert(a[4] == b[4] && a[5] == b[5] && a[6] == b[6] && a[7] == b[7]);
    }
}

/// The flags other than "valid", one character each.
pub fn flags_text(flags: PtEntryFlags) -> (r: Vec<char>)
    ensures
        r@ == seq![
            flag_char(flags.r, 'r'),
            flag_char(flags.w, 'w'),
            flag_char(flags.x, 'x'),
            flag_char(flags.u, 'u'),
            flag_char(flags.g, 'g'),
            flag_char(flags.a, 'a'),
            flag_char(flags.d, 'd'),
            flag_char(flags.c, 'c'),
        ],
        r@ == letters(flags),
{
    let mut r: Vec<char> = Vec::new();
    r.push(flag_letter(flags.r, 'r'));
    r.push(flag_letter(flags.w, 'w'));
    r.push(flag_letter(flags.x, 'x'));
    r.push(flag_letter(flags.u, 'u'));
    r.push(flag_letter(flags.g, 'g'));
    r.push(flag_letter(flags.a, 'a'));
    r.push(flag_letter(flags.d, 'd'));
    r.push(flag_letter(flags.c, 'c'));
    r
}

/// The run of entries that is still to be listed.
pub struct DumpState(pub Option<DumpLeaves>);

/// The lines of the pending run.
pub open spec fn pending_lines(pending: Option<DumpLeaves>) -> Seq<DumpLine> {
    match pending {
        Some(leaves) => seq![leaves.line()],
        None => seq![],
    }
}

/// The run that a single entry makes.
pub open spec fn single(level: usize, va: VirtAddr, page: LeafPage) -> DumpLeaves {
    DumpLeaves {
        level,
        flags: page.flags,
        start_va: va,
        start_pa: page.pa,
        end_va: va,
        end_pa: page.pa,
    }
}

/// The pending run and the lines after coming by one more entry.
pub open spec fn visit(
    pending: Option<DumpLeaves>,
    lines: Seq<DumpLine>,
    at: Visit,
) -> (Option<DumpLeaves>, Seq<DumpLine>) {
    match at {
        Visit::Invalid => (None, lines + pending_lines(pending)),
        Visit::NonLeaf { level, va, pa } => (
            None,
            (lines + pending_lines(pending)).push(non_leaf_line_spec(level, va, pa)),
        ),
        Visit::Leaf { level, va, page } => match pending {
            Some(leaves) if leaves.continued_by(level, va, page) => (
                Some(DumpLeaves { end_va: va, end_pa: page.pa, ..leaves }),
                lines,
            ),
            _ => (Some(single(level, va, page)), lines + pending_lines(pending)),
        },
    }
}

impl DumpState {
    /// Lists the pending run.
    pub fn dump(&mut self, lines: &mut Vec<DumpLine>)
        requires
            old(self).0 matches Some(leaves) ==> leaves.wf(),
        ensures
            final(self).0 is None,
            final(lines)@ == old(lines)@ + pending_lines(old(self).0),
    {
        match self.0 {
            Some(leaves) => {
                lines.push(leaves_line(&leaves));
            },
            None => {},
        }
        self.0 = None;
    }

    /// Adds an entry to the pending run, or lists the run and starts another.
    pub fn append_or_dump(
        &mut self,
        level: usize,
        va: VirtAddr,
        page: LeafPage,
        lines: &mut Vec<DumpLine>,
    )
        requires
            level <= 2,
            old(self).0 matches Some(leaves) ==> leaves.wf(),
        ensures
            (final(self).0, final(lines)@) == visit(
                old(self).0,
                old(lines)@,
                Visit::Leaf { level, va, page },
            ),
    {
        let size: u64 = level_page_size(level);
        match self.0 {
            Some(leaves) => {
                if leaves.level == level && leaves.flags == page.flags && leaves.end_va.0 + size
                    == va.0 && leaves.end_pa.0 + size == page.pa.0 {
                    self.0 = Some(DumpLeaves { end_va: va, end_pa: page.pa, ..leaves });
                    return;
                }
            },
            None => {},
        }
        self.dump(lines);
        self.0 = Some(
            DumpLeaves {
                level,
                flags: page.flags,
                start_va: va,
                start_pa: page.pa,
                end_va: va,
                end_pa: page.pa,
            },
        );
    }
}

/// The pending run and the lines after coming by the tables on the walk for
/// `va`, from level `from` down to the one above level `to`: each is come by at
/// the first address that it is for.
pub open spec fn visit_tables(
    table: PageTable,
    pending: Option<DumpLeaves>,
    lines: Seq<DumpLine>,
    va: nat,
    from: nat,
    to: nat,
) -> (Option<DumpLeaves>, Seq<DumpLine>)
    decreases from,
{
    if from <= to {
        (pending, lines)
    } else {
        let next = if va % level_size(from) == 0 {
            visit(
                pending,
                lines,
                Visit::NonLeaf {
                    level: from as usize,
                    va: VirtAddr(va as u64),
                    pa: entry_at(table.0.entries@, 2, from, va)->table.pa,
                },
            )
        } else {
            (pending, lines)
        };
        visit_tables(table, next.0, next.1, va, (from - 1) as nat, to)
    }
}

/// The lines for the entries from address `va` on, after the lines so far and
/// the pending run.
pub open spec fn lines_from(
    table: PageTable,
    pending: Option<DumpLeaves>,
    lines: Seq<DumpLine>,
    va: nat,
) -> Seq<DumpLine>
    decreases
        if va < VA_MAX {
            VA_MAX - va
        } else {
            0
        },
{
    if va >= VA_MAX {
        lines + pending_lines(pending)
    } else {
        let at = table.slot_at(va);
        let above = visit_tables(table, pending, lines, va, 2, at.level);
        let after = visit(
            above.0,
            above.1,
            match at.leaf {
                Some(page) => Visit::Leaf {
                    level: at.level as usize,
                    va: VirtAddr(va as u64),
                    page,
                },
                None => Visit::Invalid,
            },
        );
        let next = (entry_base(at, va) + level_size(at.level)) as nat;
        if next <= va {
            after.1 + pending_lines(after.0)
        } else {
            lines_from(table, after.0, after.1, next)
        }
    }
}

/// Where the walk leads down through tables, it does so at every level above.
proof fn lemma_path_above(table: PageTable, v: PagesView, va: nat, level: nat)
    requires
        table.wf(v),
        table.slot_at(va).level < level <= 2,
    ensures
        path(table.0.entries@, 2, level, va),
        entry_at(table.0.entries@, 2, level, va) is Table,
{
    lemma_path_to_slot(table.0.entries@, 2, va, v);
    let low = table.slot_at(va).level;
    let s = table.0.entries@;
    reveal_with_fuel(path, 3);
    reveal_with_fuel(entry_at, 3);
    assert(path(s, 2, low, va));
}

/// Lists the contents of a page table: the entries that lead to other tables,
/// and the pages, with neighbouring ones taken together.
#[verifier::loop_isolation(false)]
pub fn dump_pagetable(pt: &PageTable) -> (lines: Vec<DumpLine>)
    requires
        pt.shaped(),
        forall|x: nat|
            x < VA_MAX && (#[trigger] pt.slot_at(x)).leaf is Some ==> pt.slot_at(x).leaf->0.pa.0
                + level_size(pt.slot_at(x).level) <= u64::MAX,
    ensures
        lines@ == lines_from(*pt, None, seq![], 0),
{
    let ghost v = choose|v: PagesView| #[trigger] pt.wf(v);
    let mut state = DumpState(None);
    let mut lines: Vec<DumpLine> = Vec::new();
    let mut cur: u64 = 0;
    proof {
        lemma_level_sizes();
        lemma_path_to_slot(pt.0.entries@, 2, 0, v);
        lemma_entry_base(0, pt.slot_at(0).level);
    }
    while cur < VA_MAX
        invariant
            cur <= VA_MAX,
            cur % 4096 == 0,
            cur < VA_MAX ==> cur as nat % level_size(pt.slot_at(cur as nat).level) == 0,
            state.0 matches Some(leaves) ==> leaves.wf(),
            lines_from(*pt, None, seq![], 0) == lines_from(*pt, state.0, lines@, cur as nat),
        decreases VA_MAX - cur,
    {
        let va: VirtAddr = VirtAddr(cur);
        let (low, leaf) = pt.walk(va, Ghost(v));
        let ghost pending = state.0;
        let ghost before = lines@;
        let mut level: usize = 2;
        while level > low
            invariant
                low <= level <= 2,
                state.0 matches Some(leaves) ==> leaves.wf(),
                visit_tables(*pt, pending, before, cur as nat, 2, low as nat) == visit_tables(
                    *pt,
                    state.0,
                    lines@,
                    cur as nat,
                    level as nat,
                    low as nat,
                ),
            decreases level,
        {
            if cur % level_page_size(level) == 0 {
                proof {
                    lemma_path_above(*pt, v, cur as nat, level as nat);
                }
                state.dump(&mut lines);
                match pt.0.entry(2, level, va, Ghost(v)) {
                    PtEntry::Table { table } => {
                        lines.push(non_leaf_line(level, va, table.pa));
                    },
                    _ => {},
                }
            }
            level = level - 1;
        }
        proof {
            lemma_entry_base(cur as nat, low as nat);
            lemma_next_entry(*pt, v, cur as nat);
        }
        match leaf {
            Some(page) => state.append_or_dump(low, va, page, &mut lines),
            None => state.dump(&mut lines),
        }
        cur = cur + level_page_size(low);
    }
    state.dump(&mut lines);
    lines
}

/// The entry after one begins at the start of an entry, too.
proof fn lemma_next_entry(table: PageTable, v: PagesView, va: nat)
    requires
        table.wf(v),
        va < VA_MAX,
        va % level_size(table.slot_at(va).level) == 0,
    ensures
        ({
            let next = va + level_size(table.slot_at(va).level);
            &&& entry_base(table.slot_at(va), va) == va
            &&& next <= VA_MAX
            &&& next % 4096 == 0
            &&& next % level_size(table.slot_at(next).level) == 0
        }),
{
    let at = table.slot_at(va);
    let next = va + level_size(at.level);
    lemma_path_to_slot(table.0.entries@, 2, va, v);
    lemma_path_to_slot(table.0.entries@, 2, next, v);
    lemma_level_sizes();
    let low = at.level;
    let high = table.slot_at(next).level;
    if low == 0 {
        assert(va % 0x1000 == 0);
        assert(next <= VA_MAX && next % 4096 == 0);
    } else if low == 1 {
        assert(va % 0x20_0000 == 0);
        assert(next <= VA_MAX && next % 4096 == 0);
    } else {
        assert(va % 0x4000_0000 == 0);
        assert(next <= VA_MAX && next % 4096 == 0);
    }
    lemma_entry_base(next, high);
    lemma_entry_base(va, low);
    if next % level_size(high) != 0 {
        // the entry of `next` begins below it, and so holds the address before it
        let x = (next - 1) as nat;
        assert(super::tree::same_region(x, next, high));
        assert(super::tree::same_region(x, va, low));
        super::tree::lemma_slot_region(table.0.entries@, 2, next, x, v);
        super::tree::lemma_slot_region(table.0.entries@, 2, va, x, v);
        assert(super::tree::same_region(next, va, low)) by {
            assert(high == low);
        }
    }
}

/// Whether a line says that an address is mapped to a physical address, with flags.
pub open spec fn says(line: DumpLine, x: nat, pa: nat, flags: PtEntryFlags) -> bool {
    line matches DumpLine::Leaves { start_va, end_va, start_pa, flags: f, .. } && start_va.0 <= x
        < end_va.0 && start_pa.0 + (x - start_va.0) == pa && f == flags
}

/// Whether a run of entries can be listed, and maps neighbouring addresses to neighbouring
/// ones.
spec fn run_ok(run: DumpLeaves) -> bool {
    &&& run.wf()
    &&& run.start_va.0 <= run.end_va.0
    &&& run.end_va.0 - run.start_va.0 == run.end_pa.0 - run.start_pa.0
}

spec fn pending_ok(pending: Option<DumpLeaves>) -> bool {
    pending matches Some(run) ==> run_ok(run)
}

/// Whether a line that is or will be listed says something.
spec fn listed(
    pending: Option<DumpLeaves>,
    lines: Seq<DumpLine>,
    x: nat,
    pa: nat,
    flags: PtEntryFlags,
) -> bool {
    ||| exists|k: int| 0 <= k < lines.len() && says(#[trigger] lines[k], x, pa, flags)
    ||| pending matches Some(run) && says(run.line(), x, pa, flags)
}

/// Whether a line says only what is so.
spec fn is_true(table: PageTable, line: DumpLine) -> bool {
    forall|x: nat, pa: nat, flags: PtEntryFlags|
        #[trigger] says(line, x, pa, flags) ==> {
            &&& table.slot_at(x).leaf matches Some(page)
            &&& page.flags == flags
            &&& translate(table.slot_at(x), x) == pa
        }
}

spec fn all_true(table: PageTable, pending: Option<DumpLeaves>, lines: Seq<DumpLine>) -> bool {
    &&& forall|k: int| 0 <= k < lines.len() ==> is_true(table, #[trigger] lines[k])
    &&& pending matches Some(run) ==> is_true(table, run.line())
}

/// What is listed stays listed, and what is true stays true, when the run is listed.
proof fn lemma_flush(
    table: PageTable,
    pending: Option<DumpLeaves>,
    lines: Seq<DumpLine>,
    x: nat,
    pa: nat,
    flags: PtEntryFlags,
)
    ensures
        listed(pending, lines, x, pa, flags) ==> listed(
            None,
            lines + pending_lines(pending),
            x,
            pa,
            flags,
        ),
        all_true(table, pending, lines) ==> all_true(table, None, lines + pending_lines(pending)),
{
    let after = lines + pending_lines(pending);
    if listed(pending, lines, x, pa, flags) {
        if exists|k: int| 0 <= k < lines.len() && says(#[trigger] lines[k], x, pa, flags) {
            let k = choose|k: int| 0 <= k < lines.len() && says(#[trigger] lines[k], x, pa, flags);
            assert(says(after[k], x, pa, flags));
        } else {
            assert(says(after[lines.len() as int], x, pa, flags));
        }
    }
    if all_true(table, pending, lines) {
        assert forall|k: int| 0 <= k < after.len() implies is_true(table, #[trigger] after[k]) by {
            if k < lines.len() {
                assert(after[k] == lines[k]);
            }
        }
    }
}

/// One more line that leads to another table says nothing of addresses.
proof fn lemma_non_leaf(
    table: PageTable,
    lines: Seq<DumpLine>,
    line: DumpLine,
    x: nat,
    pa: nat,
    flags: PtEntryFlags,
)
    requires
        line is NonLeaf,
    ensures
        listed(None, lines, x, pa, flags) ==> listed(None, lines.push(line), x, pa, flags),
        all_true(table, None, lines) ==> all_true(table, None, lines.push(line)),
{
    let after = lines.push(line);
    if listed(None, lines, x, pa, flags) {
        let k = choose|k: int| 0 <= k < lines.len() && says(#[trigger] lines[k], x, pa, flags);
        assert(says(after[k], x, pa, flags));
    }
    if all_true(table, None, lines) {
        assert forall|k: int| 0 <= k < after.len() implies is_true(table, #[trigger] after[k]) by {
            if k < lines.len() {
                assert(after[k] == lines[k]);
            }
        }
    }
}

proof fn lemma_tables_kept(
    table: PageTable,
    pending: Option<DumpLeaves>,
    lines: Seq<DumpLine>,
    va: nat,
    from: nat,
    to: nat,
    x: nat,
    pa: nat,
    flags: PtEntryFlags,
)
    requires
        pending_ok(pending),
    ensures
        ({
            let after = visit_tables(table, pending, lines, va, from, to);
            &&& pending_ok(after.0)
            &&& listed(pending, lines, x, pa, flags) ==> listed(after.0, after.1, x, pa, flags)
            &&& all_true(table, pending, lines) ==> all_true(table, after.0, after.1)
        }),
    decreases from,
{
    if from > to {
        if va % level_size(from) == 0 {
            let line = non_leaf_line_spec(
                from as usize,
                VirtAddr(va as u64),
                entry_at(table.0.entries@, 2, from, va)->table.pa,
            );
            let flushed = lines + pending_lines(pending);
            lemma_flush(table, pending, lines, x, pa, flags);
            lemma_non_leaf(table, flushed, line, x, pa, flags);
            lemma_tables_kept(
                table,
                None,
                flushed.push(line),
                va,
                (from - 1) as nat,
                to,
                x,
                pa,
                flags,
            );
        } else {
            lemma_tables_kept(table, pending, lines, va, (from - 1) as nat, to, x, pa, flags);
        }
    }
}

/// A page that is come by is listed, and what was listed or true stays so.
proof fn lemma_leaf_listed(
    table: PageTable,
    v: PagesView,
    pending: Option<DumpLeaves>,
    lines: Seq<DumpLine>,
    va: nat,
    page: LeafPage,
    x: nat,
    pa: nat,
    flags: PtEntryFlags,
)
    requires
        table.wf(v),
        pending_ok(pending),
        va < VA_MAX,
        table.slot_at(va).leaf == Some(page),
        va % level_size(table.slot_at(va).level) == 0,
        page.pa.0 + level_size(table.slot_at(va).level) <= u64::MAX,
    ensures
        ({
            let level = table.slot_at(va).level;
            let at = Visit::Leaf { level: level as usize, va: VirtAddr(va as u64), page };
            let after = visit(pending, lines, at);
            &&& pending_ok(after.0)
            &&& listed(pending, lines, x, pa, flags) ==> listed(after.0, after.1, x, pa, flags)
            &&& va <= x < va + level_size(level) && translate(table.slot_at(x), x) == pa
                && page.flags == flags ==> listed(after.0, after.1, x, pa, flags)
            &&& all_true(table, pending, lines) ==> all_true(table, after.0, after.1)
        }),
{
    let slot = table.slot_at(va);
    let level = slot.level;
    let size = level_size(level);
    lemma_path_to_slot(table.0.entries@, 2, va, v);
    lemma_level_sizes();
    lemma_next_entry(table, v, va);
    lemma_entry_base(va, level);
    assert forall|y: nat| va <= y < va + size implies table.slot_at(y) == slot && #[trigger] translate(
        table.slot_at(y),
        y,
    ) == page.pa.0 + (y - va) by {
        assert(super::tree::same_region(y, va, level));
        super::tree::lemma_slot_region(table.0.entries@, 2, va, y, v);
        super::range::lemma_page_region(y, va, level);
    }
    let at = Visit::Leaf { level: level as usize, va: VirtAddr(va as u64), page };
    let after = visit(pending, lines, at);
    let run = after.0->0;
    let continues = pending matches Some(leaves) && leaves.continued_by(
        level as usize,
        VirtAddr(va as u64),
        page,
    );
    assert(run_ok(run));
    if continues {
        let old = pending->0;
        if says(old.line(), x, pa, flags) {
            assert(says(run.line(), x, pa, flags));
        }
        if listed(pending, lines, x, pa, flags) && !says(old.line(), x, pa, flags) {
            let k = choose|k: int| 0 <= k < lines.len() && says(#[trigger] lines[k], x, pa, flags);
            assert(says(after.1[k], x, pa, flags));
        }
        if all_true(table, pending, lines) {
            assert forall|y: nat, q: nat, f: PtEntryFlags| #[trigger]
                says(run.line(), y, q, f) implies {
                &&& table.slot_at(y).leaf matches Some(p)
                &&& p.flags == f
                &&& translate(table.slot_at(y), y) == q
            } by {
                if y < va {
                    assert(says(old.line(), y, q, f));
                } else {
                    assert(translate(table.slot_at(y), y) == page.pa.0 + (y - va));
                }
            }
        }
    } else {
        lemma_flush(table, pending, lines, x, pa, flags);
        if listed(pending, lines, x, pa, flags) {
            let k = choose|k: int|
                0 <= k < after.1.len() && says(#[trigger] after.1[k], x, pa, flags);
            assert(says(after.1[k], x, pa, flags));
        }
        if all_true(table, pending, lines) {
            assert forall|y: nat, q: nat, f: PtEntryFlags| #[trigger]
                says(run.line(), y, q, f) implies {
                &&& table.slot_at(y).leaf matches Some(p)
                &&& p.flags == f
                &&& translate(table.slot_at(y), y) == q
            } by {
                assert(translate(table.slot_at(y), y) == page.pa.0 + (y - va));
            }
        }
    }
    if va <= x < va + size && translate(table.slot_at(x), x) == pa && page.flags == flags {
        assert(says(run.line(), x, pa, flags));
    }
}

/// Whether the pages of a table can be listed.
spec fn dumpable(table: PageTable) -> bool {
    forall|x: nat|
        x < VA_MAX && (#[trigger] table.slot_at(x)).leaf is Some ==> table.slot_at(x).leaf->0.pa.0
            + level_size(table.slot_at(x).level) <= u64::MAX
}

proof fn lemma_lines(
    table: PageTable,
    v: PagesView,
    pending: Option<DumpLeaves>,
    lines: Seq<DumpLine>,
    va: nat,
    x: nat,
)
    requires
        table.wf(v),
        dumpable(table),
        pending_ok(pending),
        va < VA_MAX ==> va % level_size(table.slot_at(va).level) == 0,
        x < VA_MAX,
    ensures
        ({
            let all = lines_from(table, pending, lines, va);
            let page = table.slot_at(x).leaf->0;
            let pa = translate(table.slot_at(x), x);
            &&& table.slot_at(x).leaf is Some && (va <= x || listed(
                pending,
                lines,
                x,
                pa,
                page.flags,
            )) ==> listed(None, all, x, pa, page.flags)
            &&& all_true(table, pending, lines) ==> all_true(table, None, all)
        }),
    decreases
        if va < VA_MAX {
            VA_MAX - va
        } else {
            0
        },
{
    let here = table.slot_at(x);
    let pa = translate(here, x);
    let flags = here.leaf->0.flags;
    if va >= VA_MAX {
        lemma_flush(table, pending, lines, x, pa, flags);
    } else {
        let at = table.slot_at(va);
        let above = visit_tables(table, pending, lines, va, 2, at.level);
        lemma_path_to_slot(table.0.entries@, 2, va, v);
        lemma_level_sizes();
        lemma_entry_base(va, at.level);
        lemma_next_entry(table, v, va);
        lemma_tables_kept(table, pending, lines, va, 2, at.level, x, pa, flags);
        let next = (va + level_size(at.level)) as nat;
        if va <= x < next {
            assert(super::tree::same_region(x, va, at.level));
            super::tree::lemma_slot_region(table.0.entries@, 2, va, x, v);
        }
        match at.leaf {
            Some(page) => {
                lemma_leaf_listed(table, v, above.0, above.1, va, page, x, pa, flags);
                let after = visit(
                    above.0,
                    above.1,
                    Visit::Leaf { level: at.level as usize, va: VirtAddr(va as u64), page },
                );
                lemma_lines(table, v, after.0, after.1, next, x);
            },
            None => {
                lemma_flush(table, above.0, above.1, x, pa, flags);
                lemma_lines(table, v, None, above.1 + pending_lines(above.0), next, x);
            },
        }
    }
}

/// A listing tells of every address that is mapped where it is mapped to, and with which
/// flags, and it tells nothing of addresses that is not so.
pub proof fn law_dump(table: PageTable, v: PagesView, x: nat, k: int, y: nat, pa: nat, flags: PtEntryFlags)
    requires
        table.wf(v),
        forall|x: nat|
            x < VA_MAX && (#[trigger] table.slot_at(x)).leaf is Some ==> table.slot_at(x).leaf->0.pa.0
                + level_size(table.slot_at(x).level) <= u64::MAX,
    ensures
        x < VA_MAX && table.slot_at(x).leaf is Some ==> exists|j: int|
            0 <= j < lines_from(table, None, seq![], 0).len() && says(
                #[trigger] lines_from(table, None, seq![], 0)[j],
                x,
                translate(table.slot_at(x), x),
                table.slot_at(x).leaf->0.flags,
            ),
        0 <= k < lines_from(table, None, seq![], 0).len() && says(
            lines_from(table, None, seq![], 0)[k],
            y,
            pa,
            flags,
        ) ==> {
            &&& table.slot_at(y).leaf matches Some(page)
            &&& page.flags == flags
            &&& translate(table.slot_at(y), y) == pa
        },
{
    lemma_level_sizes();
    lemma_path_to_slot(table.0.entries@, 2, 0, v);
    let z = if x < VA_MAX {
        x
    } else {
        0
    };
    lemma_lines(table, v, None, seq![], 0, z);
    let all = lines_from(table, None, seq![], 0);
    assert(all_true(table, None, seq![]));
    if 0 <= k < all.len() && says(all[k], y, pa, flags) {
        assert(is_true(table, all[k]));
    }
}

} // verus!
