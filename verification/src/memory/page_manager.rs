//! Management of memory pages: allocation, release, and the number of users of
//! each page.
use super::addr::{lemma_round, round_down, round_up, PageRound, PhysAddr};
use super::PAGE_SIZE;
use crate::error::KernelError;
use crate::slab_allocator::{is_piece, pieces, RunList};
use crate::syscall::MemoryInfo;
use core::ops::Range;
use vstd::prelude::*;

verus! {

/// The byte that fills a page when it is handed out without being zeroed, to
/// make the use of memory that nobody initialized stand out.
pub const ALLOC_FILL: u8 = 5;

/// Bytes taken by the state of one page.
pub const PAGE_STATE_SIZE: u64 = 4;

/// `bytes` with the `len` bytes from `off` on replaced by `value`.
pub open spec fn filled(bytes: Seq<u8>, off: int, len: int, value: u8) -> Seq<u8> {
    Seq::new(
        bytes.len(),
        |i: int|
            if off <= i < off + len {
                value
            } else {
                bytes[i]
            },
    )
}

/// `bytes` with the `len` bytes from `dst` on replaced by those from `src` on.
pub open spec fn copied(bytes: Seq<u8>, src: int, dst: int, len: int) -> Seq<u8> {
    Seq::new(
        bytes.len(),
        |i: int|
            if dst <= i < dst + len {
                bytes[i - dst + src]
            } else {
                bytes[i]
            },
    )
}

/// Main memory: the bytes from one physical address on.
pub struct Ram {
    pub base: u64,
    pub bytes: Vec<u8>,
}

impl Ram {
    /// Whether the `len` bytes from physical address `addr` on are main memory.
    pub open spec fn covers(self, addr: nat, len: nat) -> bool {
        self.base <= addr && addr + len <= self.base + self.bytes@.len()
    }

    /// Sets every byte of a piece of memory to one value.
    pub fn fill(&mut self, addr: u64, len: u64, value: u8)
        requires
            old(self).covers(addr as nat, len as nat),
        ensures
            final(self).base == old(self).base,
            final(self).bytes@ == filled(
                old(self).bytes@,
                addr - old(self).base,
                len as int,
                value,
            ),
    {
        assert(self.bytes.len() == self.bytes@.len());
        let off: usize = (addr - self.base) as usize;
        let n: usize = len as usize;
        let ghost before = self.bytes@;
        let mut i: usize = 0;
        while i < n
            invariant
                i <= n,
                off + n <= before.len() <= usize::MAX,
                before.len() == self.bytes@.len(),
                self.base == old(self).base,
                self.bytes@ == filled(before, off as int, i as int, value),
            decreases n - i,
        {
            self.bytes.set(off + i, value);
            i = i + 1;
            assert(self.bytes@ =~= filled(before, off as int, i as int, value));
        }
        assert(n == 0 ==> self.bytes@ =~= filled(before, off as int, 0, value));
    }

    /// Copies a piece of memory to another place; the two do not overlap.
    pub fn copy(&mut self, src: u64, dst: u64, len: u64)
        requires
            old(self).covers(src as nat, len as nat),
            old(self).covers(dst as nat, len as nat),
            src + len <= dst || dst + len <= src,
        ensures
            final(self).base == old(self).base,
            final(self).bytes@ == copied(
                old(self).bytes@,
                src - old(self).base,
                dst - old(self).base,
                len as int,
            ),
    {
        assert(self.bytes.len() == self.bytes@.len());
        let from: usize = (src - self.base) as usize;
        let to: usize = (dst - self.base) as usize;
        let n: usize = len as usize;
        let ghost before = self.bytes@;
        let mut i: usize = 0;
        while i < n
            invariant
                i <= n,
                from + n <= before.len() <= usize::MAX,
                to + n <= before.len(),
                from + n <= to || to + n <= from,
                before.len() == self.bytes@.len(),
                self.base == old(self).base,
                self.bytes@ == copied(before, from as int, to as int, i as int),
            decreases n - i,
        {
            let b: u8 = self.bytes[from + i];
            self.bytes.set(to + i, b);
            i = i + 1;
            assert(self.bytes@ =~= copied(before, from as int, to as int, i as int));
        }
        assert(n == 0 ==> self.bytes@ =~= copied(before, from as int, to as int, 0));
    }

    /// The bytes of a piece of memory.
    pub fn slice(&self, addr: u64, len: u64) -> (r: &[u8])
        requires
            self.covers(addr as nat, len as nat),
        ensures
            r@ == self.bytes@.subrange(addr - self.base, addr - self.base + len),
    {
        assert(self.bytes.len() == self.bytes@.len());
        let off: usize = (addr - self.base) as usize;
        vstd::slice::slice_subrange(self.bytes.as_slice(), off, off + len as usize)
    }

    /// The bytes of a piece of memory, to be written to.
    pub fn slice_mut(&mut self, addr: u64, len: u64) -> (r: &mut [u8])
        requires
            old(self).covers(addr as nat, len as nat),
        ensures
            r@ == old(self).bytes@.subrange(addr - old(self).base, addr - old(self).base + len),
            final(r)@.len() == len ==> {
                &&& final(self).base == old(self).base
                &&& final(self).bytes@ == old(self).bytes@.subrange(0, addr - old(self).base)
                    + final(r)@ + old(self).bytes@.subrange(
                    addr - old(self).base + len,
                    old(self).bytes@.len() as int,
                )
            },
    {
        assert(self.bytes.len() == self.bytes@.len());
        let off: usize = (addr - self.base) as usize;
        let n: usize = len as usize;
        let (_, rest) = self.bytes.as_mut_slice().split_at_mut(off);
        let (r, _) = rest.split_at_mut(n);
        r
    }
}

/// The state of a single page in memory.
#[derive(Debug)]
pub struct PageState {
    /// The reference count of the page.
    ///
    /// A value of `0` indicates the page is free. The value `u32::MAX` indicates
    /// that multiple references are not allowed.
    pub ref_count: u32,
}

impl PageState {
    /// Creates a new `PageState` with a reference count of `0`.
    pub fn new() -> (r: Self)
        ensures
            r.ref_count == 0,
    {
        PageState { ref_count: 0 }
    }

    /// Increments the reference count and returns its previous value.
    pub fn increment_ref(&mut self) -> (r: u32)
        requires
            old(self).ref_count != u32::MAX,
        ensures
            r == old(self).ref_count,
            final(self).ref_count == old(self).ref_count + 1,
    {
        let current: u32 = self.ref_count;
        self.ref_count = current + 1;
        current
    }

    /// Decrements the reference count and returns its previous value.
    pub fn decrement_ref(&mut self) -> (r: u32)
        requires
            0 < old(self).ref_count < u32::MAX,
        ensures
            r == old(self).ref_count,
            final(self).ref_count == old(self).ref_count - 1,
    {
        let current: u32 = self.ref_count;
        self.ref_count = current - 1;
        current
    }

    /// Marks a page that nobody uses as non-shareable.
    pub fn mark_non_shareable(&mut self)
        requires
            old(self).ref_count == 0,
        ensures
            final(self).ref_count == u32::MAX,
    {
        self.ref_count = u32::MAX;
    }

    /// Takes the non-shareable mark off a page, which is then unused.
    ///
    /// Returns `Ok(0)`, or `Err(u32::MAX)` if the page has no such mark; the count then
    /// stays as it is.
    pub fn try_unmark_non_shareable(&mut self) -> (r: Result<u32, u32>)
        ensures
            old(self).ref_count == u32::MAX ==> r == Ok::<u32, u32>(0) && final(self).ref_count == 0,
            old(self).ref_count != u32::MAX ==> r == Err::<u32, u32>(u32::MAX)
                && final(self).ref_count == old(self).ref_count,
    {
        if self.ref_count == u32::MAX {
            self.ref_count = 0;
            Ok(0)
        } else {
            Err(u32::MAX)
        }
    }
}

/// What a [`PageManager`] knows: which pages are used how often, which are free,
/// and what memory holds.
#[verifier::ext_equal]
pub struct PagesView {
    /// The address of the first page that can be allocated.
    pub heap_start: nat,
    /// The address one beyond the last page that can be allocated.
    pub heap_end: nat,
    /// The reference count of each page.
    pub counts: Seq<u32>,
    /// The free pages, in the order in which they will be handed out.
    pub free: Seq<u64>,
    /// The address of the first byte of memory.
    pub ram_base: nat,
    /// What memory holds.
    pub ram: Seq<u8>,
}

impl PagesView {
    /// Whether `pa` is the address of a page that can be allocated.
    pub open spec fn is_page(self, pa: nat) -> bool {
        self.heap_start <= pa < self.heap_end && pa % 4096 == 0
    }

    /// The number of a page.
    pub open spec fn index(self, pa: nat) -> int {
        (pa - self.heap_start) / 4096
    }

    /// How often a page is used.
    pub open spec fn count(self, pa: nat) -> u32 {
        self.counts[self.index(pa)]
    }

    /// A page is free if and only if its reference count is zero; no page is
    /// listed as free twice; and all pages are main memory.
    pub open spec fn wf(self) -> bool {
        &&& self.heap_start % 4096 == 0
        &&& self.heap_end % 4096 == 0
        &&& 0 < self.heap_start <= self.heap_end <= u64::MAX
        &&& (self.heap_end - self.heap_start) / 4096 <= self.counts.len()
        &&& self.free.no_duplicates()
        &&& forall|i: int| 0 <= i < self.free.len() ==> self.is_page(#[trigger] self.free[i] as nat)
        &&& forall|pa: u64|
            self.is_page(pa as nat) ==> (#[trigger] self.free.contains(pa) <==> self.count(
                pa as nat,
            ) == 0)
        &&& self.ram_base <= self.heap_start
        &&& self.heap_end <= self.ram_base + self.ram.len()
    }

    /// The bytes of the page at `pa`.
    pub open spec fn page_bytes(self, pa: nat) -> Seq<u8> {
        self.ram.subrange(pa - self.ram_base, pa - self.ram_base + 4096)
    }

    /// With one more user of the page.
    pub open spec fn retained(self, pa: nat) -> Self {
        PagesView {
            counts: self.counts.update(self.index(pa), (self.count(pa) + 1) as u32),
            ..self
        }
    }

    /// Whether letting go of the page frees it.
    pub open spec fn last_use(self, pa: nat) -> bool {
        self.count(pa) == u32::MAX || self.count(pa) <= 1
    }

    /// With one user of the page less; the page is free if that was the last one.
    pub open spec fn released(self, pa: nat) -> Self {
        PagesView {
            counts: self.counts.update(
                self.index(pa),
                if self.count(pa) == u32::MAX {
                    0
                } else {
                    (self.count(pa) - 1) as u32
                },
            ),
            free: if self.last_use(pa) {
                seq![pa as u64] + self.free
            } else {
                self.free
            },
            ..self
        }
    }

    /// With the next free page in use, its count set and its bytes filled.
    pub open spec fn allocated(self, count: u32, fill: u8) -> Self {
        PagesView {
            counts: self.counts.update(self.index(self.free[0] as nat), count),
            free: self.free.drop_first(),
            ram: filled(self.ram, self.free[0] - self.ram_base, 4096, fill),
            ..self
        }
    }

    /// With `data` written to memory at `pa`.
    pub open spec fn written(self, pa: nat, data: Seq<u8>) -> Self {
        PagesView {
            ram: self.ram.subrange(0, pa - self.ram_base) + data + self.ram.subrange(
                pa - self.ram_base + data.len(),
                self.ram.len() as int,
            ),
            ..self
        }
    }

    /// Whether the pages and memory are the same ones, whatever they hold.
    pub open spec fn same_heap(self, other: Self) -> bool {
        &&& self.heap_start == other.heap_start
        &&& self.heap_end == other.heap_end
        &&& self.counts.len() == other.counts.len()
        &&& self.ram_base == other.ram_base
        &&& self.ram.len() == other.ram.len()
    }
}

/// Different pages have different numbers, and every page has one.
pub proof fn lemma_index(v: PagesView, a: nat, b: nat)
    requires
        v.wf(),
        v.is_page(a),
        v.is_page(b),
    ensures
        0 <= v.index(a) < v.counts.len(),
        v.index(a) == v.index(b) ==> a == b,
        a != b ==> a + 4096 <= b || b + 4096 <= a,
{
}

/// Using a page once more keeps the account of pages in order.
pub proof fn lemma_retained_wf(v: PagesView, pa: nat)
    requires
        v.wf(),
        v.is_page(pa),
        0 < v.count(pa) < u32::MAX,
    ensures
        v.retained(pa).wf(),
        v.retained(pa).same_heap(v),
        v.retained(pa).count(pa) == v.count(pa) + 1,
        forall|q: nat| v.is_page(q) && q != pa ==> #[trigger] v.retained(pa).count(q) == v.count(q),
{
    let w = v.retained(pa);
    lemma_index(v, pa, pa);
    assert forall|q: nat| v.is_page(q) && q != pa implies #[trigger] w.count(q) == v.count(q) by {
        lemma_index(v, pa, q);
    }
    assert forall|q: u64| w.is_page(q as nat) implies (#[trigger] w.free.contains(q) <==> w.count(
        q as nat,
    ) == 0) by {
        assert(v.free.contains(q) <==> v.count(q as nat) == 0);
    }
}

/// Letting go of a page keeps the account of pages in order.
pub proof fn lemma_released_wf(v: PagesView, pa: nat)
    requires
        v.wf(),
        v.is_page(pa),
        v.count(pa) > 0,
    ensures
        v.released(pa).wf(),
        v.released(pa).same_heap(v),
        v.released(pa).ram == v.ram,
        v.last_use(pa) ==> v.released(pa).count(pa) == 0,
        !v.last_use(pa) ==> v.released(pa).count(pa) == v.count(pa) - 1,
        forall|q: nat| v.is_page(q) && q != pa ==> #[trigger] v.released(pa).count(q) == v.count(q),
{
    let w = v.released(pa);
    let p = pa as u64;
    lemma_index(v, pa, pa);
    assert(!v.free.contains(p)) by {
        assert(v.free.contains(p) <==> v.count(p as nat) == 0);
    }
    assert forall|q: nat| v.is_page(q) && q != pa implies #[trigger] w.count(q) == v.count(q) by {
        lemma_index(v, pa, q);
    }
    assert forall|i: int| 0 <= i < w.free.len() implies w.is_page(#[trigger] w.free[i] as nat) by {
        if v.last_use(pa) && i > 0 {
            assert(w.free[i] == v.free[i - 1]);
        }
    }
    assert(w.free.no_duplicates()) by {
        assert forall|i: int, j: int| 0 <= i < w.free.len() && 0 <= j < w.free.len() && i != j implies w.free[i]
            != w.free[j] by {
            if v.last_use(pa) {
                if i > 0 {
                    assert(w.free[i] == v.free[i - 1]);
                }
                if j > 0 {
                    assert(w.free[j] == v.free[j - 1]);
                }
            }
        }
    }
    assert forall|q: u64| w.is_page(q as nat) implies (#[trigger] w.free.contains(q) <==> w.count(
        q as nat,
    ) == 0) by {
        assert(v.free.contains(q) <==> v.count(q as nat) == 0);
        if v.last_use(pa) {
            if q == p {
                assert(w.free[0] == q);
            } else {
                if w.free.contains(q) {
                    let i = w.free.index_of(q);
                    assert(w.free[i] == q);
                    assert(v.free[i - 1] == q);
                }
                if v.free.contains(q) {
                    let i = v.free.index_of(q);
                    assert(w.free[i + 1] == q);
                }
            }
        }
    }
}

/// Writing to memory keeps the account of pages in order.
pub proof fn lemma_written_wf(v: PagesView, pa: nat, len: nat)
    requires
        v.wf(),
        v.ram_base <= pa,
        pa + len <= v.ram_base + v.ram.len(),
    ensures
        forall|data: Seq<u8>|
            data.len() == len ==> (#[trigger] v.written(pa, data)).wf() && v.written(
                pa,
                data,
            ).same_heap(v),
{
    assert forall|data: Seq<u8>| data.len() == len implies (#[trigger] v.written(pa, data)).wf()
        && v.written(pa, data).same_heap(v) by {
        let w = v.written(pa, data);
        assert forall|q: u64| w.is_page(q as nat) implies (#[trigger] w.free.contains(q)
            <==> w.count(q as nat) == 0) by {
            assert(v.free.contains(q) <==> v.count(q as nat) == 0);
        }
    }
}

/// Handing out a page keeps the account of pages in order.
pub proof fn lemma_allocated_wf(v: PagesView, count: u32, fill: u8)
    requires
        v.wf(),
        v.free.len() > 0,
        count > 0,
    ensures
        v.is_page(v.free[0] as nat),
        v.count(v.free[0] as nat) == 0,
        v.allocated(count, fill).wf(),
        v.allocated(count, fill).same_heap(v),
        v.allocated(count, fill).count(v.free[0] as nat) == count,
        forall|q: nat|
            v.is_page(q) && q != v.free[0] ==> #[trigger] v.allocated(count, fill).count(q)
                == v.count(q),
        forall|i: int| 0 <= i < 4096 ==> #[trigger] v.allocated(count, fill).page_bytes(
            v.free[0] as nat,
        )[i] == fill,
        forall|q: nat|
            v.is_page(q) && q != v.free[0] ==> #[trigger] v.allocated(count, fill).page_bytes(q)
                == v.page_bytes(q),
{
    let w = v.allocated(count, fill);
    let p = v.free[0];
    assert(v.is_page(v.free[0] as nat));
    assert(v.free.contains(p));
    lemma_index(v, p as nat, p as nat);
    assert forall|q: nat| v.is_page(q) && q != p implies #[trigger] w.count(q) == v.count(q) by {
        lemma_index(v, p as nat, q);
    }
    assert forall|i: int| 0 <= i < w.free.len() implies w.is_page(#[trigger] w.free[i] as nat) by {
        assert(w.free[i] == v.free[i + 1]);
    }
    assert forall|q: u64| w.is_page(q as nat) implies (#[trigger] w.free.contains(q) <==> w.count(
        q as nat,
    ) == 0) by {
        assert(v.free.contains(q) <==> v.count(q as nat) == 0);
        if w.free.contains(q) {
            let i = w.free.index_of(q);
            assert(v.free[i + 1] == q);
        } else if v.free.contains(q) {
            let i = v.free.index_of(q);
            if i > 0 {
                assert(w.free[i - 1] == q);
            }
        }
    }
    assert forall|q: nat| v.is_page(q) && q != v.free[0] implies #[trigger] w.page_bytes(q)
        == v.page_bytes(q) by {
        lemma_index(v, p as nat, q);
        assert(w.page_bytes(q) =~= v.page_bytes(q));
    }
}

/// Where the page states and the heap lie in a range of physical addresses.
///
/// The states of as many pages as the range could hold stand at its start; the
/// heap takes the whole pages from there to the end.
pub open spec fn max_pages(start: nat, end: nat) -> nat {
    ((round_down(end, 4096) - round_up(start, 4096)) / 4096) as nat
}

/// The address of the first page of the heap.
pub open spec fn heap_start_of(start: nat, end: nat) -> nat {
    round_up((round_up(start, 4) + PAGE_STATE_SIZE * max_pages(start, end)) as nat, 4096)
}

/// Two multiples of four that are less than four apart are the same.
proof fn lemma_same_multiple(a: nat, b: nat)
    requires
        a % 4 == 0,
        b % 4 == 0,
        a < b + 4,
        b < a + 4,
    ensures
        a == b,
{
}

/// A number that falls short of a multiple of four.
proof fn lemma_fill_up(start: nat)
    requires
        start % 4 != 0,
    ensures
        (start + (4 - start % 4)) % 4 == 0,
{
}

/// Rounding up to a multiple of four.
proof fn lemma_round_up_four(start: nat)
    ensures
        round_up(start, 4) == (if start % 4 == 0 {
            start
        } else {
            (start + (4 - start % 4)) as nat
        }),
{
    lemma_round(start, 4);
    if start % 4 != 0 {
        lemma_fill_up(start);
        lemma_same_multiple(round_up(start, 4), (start + (4 - start % 4)) as nat);
    }
}

/// The whole pages in a range.
proof fn lemma_max_pages(start: nat, end: nat)
    requires
        round_up(start, 4096) < round_down(end, 4096),
        end <= u64::MAX,
    ensures
        max_pages(start, end) * 4096 == round_down(end, 4096) - round_up(start, 4096),
        0 < max_pages(start, end) <= u64::MAX / 4096,
{
    lemma_round(start, 4096);
    lemma_round(end, 4096);
    let first = round_up(start, 4096) as int;
    let last = round_down(end, 4096) as int;
    lemma_difference(first, last);
}

proof fn lemma_difference(first: int, last: int)
    requires
        first % 4096 == 0,
        last % 4096 == 0,
        first < last <= u64::MAX,
        0 <= first,
    ensures
        (last - first) / 4096 * 4096 == last - first,
        0 < (last - first) / 4096 <= u64::MAX / 4096,
{
}

/// The page states and the heap have room in the range.
proof fn lemma_layout(start: nat, end: nat)
    requires
        0 < start <= end <= u64::MAX,
        round_up(start, 4096) < round_down(end, 4096),
    ensures
        max_pages(start, end) * 4096 == round_down(end, 4096) - round_up(start, 4096),
        0 < max_pages(start, end) <= u64::MAX / 4096,
        round_up(start, 4) == (if start % 4 == 0 {
            start
        } else {
            (start + (4 - start % 4)) as nat
        }),
        start <= round_up(start, 4) + PAGE_STATE_SIZE * max_pages(start, end) <= round_down(
            end,
            4096,
        ) <= end,
        start < heap_start_of(start, end) <= round_down(end, 4096),
        heap_start_of(start, end) % 4096 == 0,
        round_down(end, 4096) % 4096 == 0,
        (round_down(end, 4096) - heap_start_of(start, end)) / 4096 <= max_pages(start, end),
{
    let first = round_up(start, 4096);
    let last = round_down(end, 4096);
    let n = max_pages(start, end);
    let state_end = (round_up(start, 4) + PAGE_STATE_SIZE * n) as nat;
    let heap_start = heap_start_of(start, end);
    assert(last % 4096 == 0 && last <= end && first % 4096 == 0 && start <= first < start + 4096)
        by {
        lemma_round(start, 4096);
        lemma_round(end, 4096);
    }
    assert(start <= round_up(start, 4) < start + 4) by {
        lemma_round(start, 4);
    }
    lemma_round_up_four(start);
    lemma_max_pages(start, end);
    assert(heap_start % 4096 == 0 && state_end <= heap_start < state_end + 4096) by {
        lemma_round(state_end, 4096);
    }
    lemma_multiples(heap_start, last, state_end);
    lemma_multiples(first, heap_start, start);
    assert((last - heap_start) / 4096 <= n) by {
        lemma_quotients(last - heap_start, n as int);
    }
}

proof fn lemma_quotients(a: int, n: int)
    requires
        a <= n * 4096,
    ensures
        a / 4096 <= n,
{
}

/// A multiple of the page size that is less than a page above something below
/// another multiple is not above that one.
proof fn lemma_multiples(a: nat, b: nat, below: nat)
    requires
        a % 4096 == 0,
        b % 4096 == 0,
        below <= b,
        a < below + 4096,
    ensures
        a <= b,
{
}

/// The pieces of the heap are its pages, each once.
proof fn lemma_all_free(v: PagesView)
    requires
        v.heap_start % 4096 == 0,
        v.heap_end % 4096 == 0,
        0 < v.heap_start <= v.heap_end <= u64::MAX,
        (v.heap_end - v.heap_start) / 4096 <= v.counts.len(),
        v.ram_base <= v.heap_start,
        v.heap_end <= v.ram_base + v.ram.len(),
        v.free == pieces(v.heap_start, v.heap_end, 4096),
        v.free.no_duplicates(),
        forall|i: int| 0 <= i < v.counts.len() ==> v.counts[i] == 0,
        forall|i: int|
            0 <= i < v.free.len() ==> is_piece(
                v.heap_start,
                v.heap_end,
                4096,
                #[trigger] v.free[i] as nat,
            ),
    ensures
        v.wf(),
{
    assert forall|pa: u64| v.is_page(pa as nat) implies (#[trigger] v.free.contains(pa) <==> v.count(
        pa as nat,
    ) == 0) by {
        let k = v.index(pa as nat);
        assert(v.free[k] == pa);
    }
}

/// How many page states there are, and where the heap starts and ends.
fn layout(start: PhysAddr, end: PhysAddr) -> (r: (u64, u64, u64))
    requires
        0 < start.0 <= end.0,
        start.0 + PAGE_SIZE - 1 <= u64::MAX,
        round_up(start.0 as nat, 4096) < round_down(end.0 as nat, 4096),
    ensures
        r.0 == max_pages(start.0 as nat, end.0 as nat),
        r.1 == heap_start_of(start.0 as nat, end.0 as nat),
        r.2 == round_down(end.0 as nat, 4096),
{
    proof {
        lemma_layout(start.0 as nat, end.0 as nat);
        lemma_round(start.0 as nat, 4096);
    }
    let possible_heap_start: u64 = start.page_roundup().addr();
    let heap_end: u64 = end.page_rounddown().addr();
    let pages: u64 = (heap_end - possible_heap_start) / PAGE_SIZE;
    let over: u64 = start.addr() % 4;
    let state_start: u64 = if over == 0 {
        start.addr()
    } else {
        start.addr() + (4 - over)
    };
    let state_end: u64 = state_start + PAGE_STATE_SIZE * pages;
    assert(state_end + 4095 <= u64::MAX) by {
        lemma_round(end.0 as nat, 4096);
        lemma_below_boundary(state_end as nat, heap_end as nat);
    }
    (pages, PhysAddr::new(state_end).page_roundup().addr(), heap_end)
}

proof fn lemma_below_boundary(a: nat, b: nat)
    requires
        a <= b <= u64::MAX,
        b % 4096 == 0,
    ensures
        a + 4095 <= u64::MAX,
{
}

/// The states of `pages` pages that nobody uses.
fn unused_states(pages: u64) -> (states: Vec<PageState>)
    ensures
        states@.len() == pages,
        forall|j: int| 0 <= j < pages ==> (#[trigger] states@[j]).ref_count == 0,
{
    let mut states: Vec<PageState> = Vec::new();
    let mut i: u64 = 0;
    while i < pages
        invariant
            i <= pages,
            states@.len() == i,
            forall|j: int| 0 <= j < states@.len() ==> (#[trigger] states@[j]).ref_count == 0,
        decreases pages - i,
    {
        states.push(PageState::new());
        i = i + 1;
    }
    states
}

/// A structure to manage the state of all pages in the system.
pub struct PageManager {
    /// The state of each page.
    states: Vec<PageState>,
    /// The range of physical addresses used for the heap.
    heap_start: u64,
    heap_end: u64,
    /// The free pages.
    allocator: RunList,
    /// Main memory.
    ram: Ram,
}

impl PageManager {
    pub closed spec fn view(&self) -> PagesView {
        PagesView {
            heap_start: self.heap_start as nat,
            heap_end: self.heap_end as nat,
            counts: Seq::new(self.states@.len(), |i: int| self.states@[i].ref_count),
            free: self.allocator.free_list(),
            ram_base: self.ram.base as nat,
            ram: self.ram.bytes@,
        }
    }

    /// The account of pages is in order, and the list of free pages is one of
    /// pages of the heap.
    pub closed spec fn wf(&self) -> bool {
        &&& self@.wf()
        &&& self.allocator.wf()
        &&& self.allocator.start() == self.heap_start
        &&& self.allocator.end() == self.heap_end
        &&& self.allocator.size() == PAGE_SIZE
    }

    /// What [`PageManager::wf`] says of the account of pages.
    pub proof fn lemma_wf(&self)
        requires
            self.wf(),
        ensures
            self@.wf(),
    {
    }

    /// Creates a new `PageManager` for the given range of physical addresses,
    /// which must have room for at least one page.
    pub fn new(pa_range: Range<PhysAddr>, ram: Ram) -> (r: Self)
        requires
            0 < pa_range.start.0 <= pa_range.end.0,
            pa_range.start.0 + PAGE_SIZE - 1 <= u64::MAX,
            round_up(pa_range.start.0 as nat, 4096) < round_down(pa_range.end.0 as nat, 4096),
            ram.covers(pa_range.start.0 as nat, (pa_range.end.0 - pa_range.start.0) as nat),
        ensures
            r.wf(),
            r@.heap_start == heap_start_of(pa_range.start.0 as nat, pa_range.end.0 as nat),
            r@.heap_end == round_down(pa_range.end.0 as nat, 4096),
            r@.counts == Seq::new(
                max_pages(pa_range.start.0 as nat, pa_range.end.0 as nat),
                |i: int| 0u32,
            ),
            r@.free == pieces(r@.heap_start, r@.heap_end, 4096),
            r@.ram_base == ram.base,
            r@.ram == ram.bytes@,
            pa_range.start.0 <= r@.heap_start <= r@.heap_end <= pa_range.end.0,
    {
        let ghost start = pa_range.start.0 as nat;
        let ghost end = pa_range.end.0 as nat;
        proof {
            lemma_layout(start, end);
        }
        let (pages, heap_start, heap_end) = layout(pa_range.start, pa_range.end);
        let states: Vec<PageState> = unused_states(pages);
        let allocator = RunList::new(heap_start, heap_end, PAGE_SIZE);
        let r = PageManager { states, heap_start, heap_end, allocator, ram };
        proof {
            assert(r@.counts =~= Seq::new(max_pages(start, end), |i: int| 0u32));
            lemma_all_free(r@);
        }
        r
    }

    /// The number of a page of the heap.
    pub fn page_index(&self, pa: PhysAddr) -> (r: usize)
        requires
            self.wf(),
            self@.is_page(pa.0 as nat),
        ensures
            r == self@.index(pa.0 as nat),
            r < self@.counts.len(),
    {
        proof {
            lemma_index(self@, pa.0 as nat, pa.0 as nat);
            assert(self.states.len() == self.states@.len());
        }
        ((pa.addr() - self.heap_start) / PAGE_SIZE) as usize
    }

    /// A handle on one use of a page of the heap.
    pub fn get_page(&self, pa: PhysAddr) -> (r: Page)
        requires
            self.wf(),
            self@.is_page(pa.0 as nat),
        ensures
            r.pa == pa,
    {
        Page { pa }
    }

    /// Whether the address lies in the heap.
    pub fn is_heap_addr(&self, pa: PhysAddr) -> (r: bool)
        requires
            pa.0 != 0,
        ensures
            r == (self@.heap_start <= pa.0 < self@.heap_end),
    {
        self.heap_start <= pa.addr() && pa.addr() < self.heap_end
    }

    /// The number of free pages and of all pages.
    pub fn info(&self) -> (r: MemoryInfo)
        requires
            self.wf(),
        ensures
            r.free_pages == self@.free.len(),
            r.total_pages == (self@.heap_end - self@.heap_start) / 4096,
            r.page_size == PAGE_SIZE,
    {
        MemoryInfo {
            free_pages: self.allocator.len() as u64,
            total_pages: (self.heap_end - self.heap_start) / PAGE_SIZE,
            page_size: PAGE_SIZE,
        }
    }

    /// How often a page is used.
    pub fn ref_count(&self, pa: PhysAddr) -> (r: u32)
        requires
            self.wf(),
            self@.is_page(pa.0 as nat),
        ensures
            r == self@.count(pa.0 as nat),
    {
        let i: usize = self.page_index(pa);
        self.states[i].ref_count
    }

    /// Takes the next free page, sets its count and fills it.
    fn take_page(&mut self, count: u32, fill: u8) -> (r: Result<PhysAddr, KernelError>)
        requires
            old(self).wf(),
            count > 0,
        ensures
            final(self).wf(),
            old(self)@.free.len() == 0 ==> {
                &&& r == Err::<PhysAddr, KernelError>(KernelError::NoFreePage)
                &&& final(self)@ == old(self)@
            },
            old(self)@.free.len() > 0 ==> {
                &&& r == Ok::<PhysAddr, KernelError>(PhysAddr(old(self)@.free[0]))
                &&& final(self)@ == old(self)@.allocated(count, fill)
            },
    {
        let ghost v = self@;
        let addr: u64 = match self.allocator.pop() {
            Some(addr) => addr,
            None => {
                assert(self@ =~= v);
                return Err(KernelError::NoFreePage);
            },
        };
        proof {
            lemma_allocated_wf(v, count, fill);
            lemma_index(v, addr as nat, addr as nat);
            assert(self.states.len() == self.states@.len());
        }
        let i: usize = ((addr - self.heap_start) / PAGE_SIZE) as usize;
        self.states.set(i, PageState { ref_count: count });
        self.ram.fill(addr, PAGE_SIZE, fill);
        proof {
            assert(self@ =~= v.allocated(count, fill));
        }
        Ok(PhysAddr(addr))
    }

    /// Copies one page to another.
    pub fn copy_page(&mut self, src: PhysAddr, dst: PhysAddr)
        requires
            old(self).wf(),
            old(self)@.is_page(src.0 as nat),
            old(self)@.is_page(dst.0 as nat),
            src.0 != dst.0,
        ensures
            final(self).wf(),
            final(self)@ == (PagesView {
                ram: copied(
                    old(self)@.ram,
                    src.0 - old(self)@.ram_base,
                    dst.0 - old(self)@.ram_base,
                    4096,
                ),
                ..old(self)@
            }),
    {
        let ghost v = self@;
        proof {
            lemma_index(v, src.0 as nat, dst.0 as nat);
        }
        self.ram.copy(src.addr(), dst.addr(), PAGE_SIZE);
        proof {
            let w = PagesView {
                ram: copied(v.ram, src.0 - v.ram_base, dst.0 - v.ram_base, 4096),
                ..v
            };
            assert(self@ =~= w);
            assert forall|pa: u64| w.is_page(pa as nat) implies (#[trigger] w.free.contains(pa)
                <==> w.count(pa as nat) == 0) by {
                assert(v.free.contains(pa) <==> v.count(pa as nat) == 0);
            }
        }
    }

    /// The bytes of a piece of memory.
    pub fn bytes(&self, pa: PhysAddr, len: u64) -> (r: &[u8])
        requires
            self@.ram_base <= pa.0,
            pa.0 + len <= self@.ram_base + self@.ram.len(),
        ensures
            r@ == self@.ram.subrange(pa.0 - self@.ram_base, pa.0 - self@.ram_base + len),
    {
        self.ram.slice(pa.addr(), len)
    }

    /// The bytes of a piece of memory, to be written to.
    pub fn bytes_mut(&mut self, pa: PhysAddr, len: u64) -> (r: &mut [u8])
        requires
            old(self).wf(),
            old(self)@.ram_base <= pa.0,
            pa.0 + len <= old(self)@.ram_base + old(self)@.ram.len(),
        ensures
            r@ == old(self)@.ram.subrange(
                pa.0 - old(self)@.ram_base,
                pa.0 - old(self)@.ram_base + len,
            ),
            final(r)@.len() == len ==> final(self).wf() && final(self)@ == old(self)@.written(
                pa.0 as nat,
                final(r)@,
            ),
    {
        proof {
            lemma_written_wf(self@, pa.0 as nat, len as nat);
        }
        self.ram.slice_mut(pa.addr(), len)
    }

    /// Writes bytes to memory.
    pub fn write_bytes(&mut self, pa: PhysAddr, data: &[u8])
        requires
            old(self).wf(),
            old(self)@.ram_base <= pa.0,
            pa.0 + data@.len() <= old(self)@.ram_base + old(self)@.ram.len(),
        ensures
            final(self).wf(),
            final(self)@ == old(self)@.written(pa.0 as nat, data@),
    {
        let ghost v = self@;
        assert(self.ram.bytes.len() == self.ram.bytes@.len());
        let off: usize = (pa.addr() - self.ram.base) as usize;
        let mut k: usize = 0;
        while k < data.len()
            invariant
                k <= data@.len(),
                off + data@.len() <= v.ram.len() <= usize::MAX,
                self.ram.bytes@.len() == v.ram.len(),
                forall|i: int|
                    0 <= i < v.ram.len() ==> #[trigger] self.ram.bytes@[i] == (if off <= i < off
                        + k {
                        data@[i - off]
                    } else {
                        v.ram[i]
                    }),
                self.states@ == old(self).states@,
                self.heap_start == old(self).heap_start,
                self.heap_end == old(self).heap_end,
                self.allocator == old(self).allocator,
                self.ram.base == old(self).ram.base,
            decreases data@.len() - k,
        {
            self.ram.bytes.set(off + k, data[k]);
            k = k + 1;
        }
        proof {
            lemma_written_wf(v, pa.0 as nat, data@.len());
            assert(self@ =~= v.written(pa.0 as nat, data@));
        }
    }
}

/// One use of a memory page managed by the [`PageManager`].
///
/// A page is free again when the last of its uses has been given back with
/// [`Page::release`].
#[derive(Debug)]
pub struct Page {
    pub pa: PhysAddr,
}

impl Page {
    /// The use of a page whose address is known.
    pub fn from_raw(manager: &PageManager, pa: PhysAddr) -> (r: Self)
        requires
            manager.wf(),
            manager@.is_page(pa.0 as nat),
        ensures
            r.pa == pa,
    {
        manager.get_page(pa)
    }

    /// Allocates one 4096-byte page of physical memory, filled with
    /// [`ALLOC_FILL`].
    pub fn allocate(manager: &mut PageManager) -> (r: Result<Self, KernelError>)
        requires
            old(manager).wf(),
        ensures
            final(manager).wf(),
            old(manager)@.free.len() == 0 ==> {
                &&& r == Err::<Self, KernelError>(KernelError::NoFreePage)
                &&& final(manager)@ == old(manager)@
            },
            old(manager)@.free.len() > 0 ==> {
                &&& r == Ok::<Self, KernelError>(Page { pa: PhysAddr(old(manager)@.free[0]) })
                &&& final(manager)@ == old(manager)@.allocated(1, ALLOC_FILL)
            },
    {
        match manager.take_page(1, ALLOC_FILL) {
            Ok(pa) => Ok(Page { pa }),
            Err(e) => Err(e),
        }
    }

    /// Allocates one 4096-byte zeroed page of physical memory.
    pub fn alloc_zeroed(manager: &mut PageManager) -> (r: Result<Self, KernelError>)
        requires
            old(manager).wf(),
        ensures
            final(manager).wf(),
            old(manager)@.free.len() == 0 ==> {
                &&& r == Err::<Self, KernelError>(KernelError::NoFreePage)
                &&& final(manager)@ == old(manager)@
            },
            old(manager)@.free.len() > 0 ==> {
                &&& r == Ok::<Self, KernelError>(Page { pa: PhysAddr(old(manager)@.free[0]) })
                &&& final(manager)@ == old(manager)@.allocated(1, 0)
            },
    {
        match manager.take_page(1, 0) {
            Ok(pa) => Ok(Page { pa }),
            Err(e) => Err(e),
        }
    }

    /// Allocates a page of physical memory that cannot be shared.
    pub fn alloc_non_shareable_page(manager: &mut PageManager) -> (r: Result<Self, KernelError>)
        requires
            old(manager).wf(),
        ensures
            final(manager).wf(),
            old(manager)@.free.len() == 0 ==> {
                &&& r == Err::<Self, KernelError>(KernelError::NoFreePage)
                &&& final(manager)@ == old(manager)@
            },
            old(manager)@.free.len() > 0 ==> {
                &&& r == Ok::<Self, KernelError>(Page { pa: PhysAddr(old(manager)@.free[0]) })
                &&& final(manager)@ == old(manager)@.allocated(u32::MAX, ALLOC_FILL)
            },
    {
        match manager.take_page(u32::MAX, ALLOC_FILL) {
            Ok(pa) => Ok(Page { pa }),
            Err(e) => Err(e),
        }
    }

    /// How often the page is used.
    pub fn ref_count(&self, manager: &PageManager) -> (r: u32)
        requires
            manager.wf(),
            manager@.is_page(self.pa.0 as nat),
        ensures
            r == manager@.count(self.pa.0 as nat),
    {
        manager.ref_count(self.pa)
    }

    /// Consumes the handle and returns the address of the page, which stays in use.
    pub fn into_raw(self) -> (r: PhysAddr)
        ensures
            r == self.pa,
    {
        self.pa
    }

    /// Counts one more use of the page and returns the number of uses before.
    pub fn increment_ref(&self, manager: &mut PageManager) -> (r: u32)
        requires
            old(manager).wf(),
            old(manager)@.is_page(self.pa.0 as nat),
            0 < old(manager)@.count(self.pa.0 as nat) < u32::MAX,
        ensures
            final(manager).wf(),
            r == old(manager)@.count(self.pa.0 as nat),
            final(manager)@ == old(manager)@.retained(self.pa.0 as nat),
    {
        let ghost v = manager@;
        let i: usize = manager.page_index(self.pa);
        proof {
            lemma_retained_wf(v, self.pa.0 as nat);
        }
        let r: u32 = manager.states[i].increment_ref();
        assert(manager@ =~= v.retained(self.pa.0 as nat));
        r
    }

    /// Gives one use of the page back; the page is free if it was the last one.
    pub fn release(self, manager: &mut PageManager)
        requires
            old(manager).wf(),
            old(manager)@.is_page(self.pa.0 as nat),
            old(manager)@.count(self.pa.0 as nat) > 0,
        ensures
            final(manager).wf(),
            final(manager)@ == old(manager)@.released(self.pa.0 as nat),
    {
        let ghost v = manager@;
        let ghost p = self.pa.0 as nat;
        let i: usize = manager.page_index(self.pa);
        proof {
            lemma_released_wf(v, p);
            assert(v.free.contains(self.pa.0) <==> v.count(p) == 0);
        }
        let free: bool = match manager.states[i].try_unmark_non_shareable() {
            Ok(_) => true,
            Err(_) => {
                let prev_cnt: u32 = manager.states[i].decrement_ref();
                prev_cnt <= 1
            },
        };
        if free {
            manager.allocator.push(self.pa.addr());
        }
        assert(manager@ =~= v.released(p));
    }
}

/// Allocator of whole pages, for what takes no more than a page.
#[derive(Debug, Clone, Copy, PartialEq, Eq)]
pub struct PageFrameAllocator;

impl PageFrameAllocator {
    /// Allocates a page for something of the given size and alignment.
    pub fn allocate(&self, manager: &mut PageManager, size: u64, align: u64) -> (r: Result<
        PhysAddr,
        KernelError,
    >)
        requires
            old(manager).wf(),
            size <= PAGE_SIZE,
            align > 0,
            PAGE_SIZE as nat % align as nat == 0,
        ensures
            final(manager).wf(),
            old(manager)@.free.len() == 0 ==> {
                &&& r == Err::<PhysAddr, KernelError>(KernelError::NoFreePage)
                &&& final(manager)@ == old(manager)@
            },
            old(manager)@.free.len() > 0 ==> {
                &&& r == Ok::<PhysAddr, KernelError>(PhysAddr(old(manager)@.free[0]))
                &&& final(manager)@ == old(manager)@.allocated(u32::MAX, ALLOC_FILL)
            },
    {
        match Page::alloc_non_shareable_page(manager) {
            Ok(page) => Ok(page.into_raw()),
            Err(e) => Err(e),
        }
    }

    /// Allocates a page of zeros for something of the given size and alignment.
    pub fn allocate_zeroed(&self, manager: &mut PageManager, size: u64, align: u64) -> (r: Result<
        PhysAddr,
        KernelError,
    >)
        requires
            old(manager).wf(),
            size <= PAGE_SIZE,
            align > 0,
            PAGE_SIZE as nat % align as nat == 0,
        ensures
            final(manager).wf(),
            old(manager)@.free.len() == 0 ==> {
                &&& r == Err::<PhysAddr, KernelError>(KernelError::NoFreePage)
                &&& final(manager)@ == old(manager)@
            },
            old(manager)@.free.len() > 0 ==> {
                &&& r == Ok::<PhysAddr, KernelError>(PhysAddr(old(manager)@.free[0]))
                &&& final(manager)@ == old(manager)@.allocated(u32::MAX, 0)
            },
    {
        let ghost v = manager@;
        proof {
            manager.lemma_wf();
        }
        let pa: PhysAddr = self.allocate(manager, size, align)?;
        proof {
            lemma_allocated_wf(v, u32::MAX, ALLOC_FILL);
            lemma_allocated_wf(v, u32::MAX, 0);
            manager.lemma_wf();
        }
        manager.ram.fill(pa.0, PAGE_SIZE, 0);
        assert(manager@ =~= v.allocated(u32::MAX, 0));
        Ok(pa)
    }

    /// Gives a page back.
    pub fn deallocate(&self, manager: &mut PageManager, pa: PhysAddr, size: u64, align: u64)
        requires
            old(manager).wf(),
            size <= PAGE_SIZE,
            align > 0,
            PAGE_SIZE as nat % align as nat == 0,
            old(manager)@.is_page(pa.0 as nat),
            old(manager)@.count(pa.0 as nat) > 0,
        ensures
            final(manager).wf(),
            final(manager)@ == old(manager)@.released(pa.0 as nat),
    {
        let page = Page::from_raw(manager, pa);
        page.release(manager);
    }
}

/// A page that is allocated and released again is free, and the next one to be
/// handed out; the other pages are as before.
pub proof fn law_alloc_release(v: PagesView, count: u32, fill: u8)
    requires
        v.wf(),
        v.free.len() > 0,
        count == 1 || count == u32::MAX,
    ensures
        v.allocated(count, fill).released(v.free[0] as nat).free == v.free,
        v.allocated(count, fill).released(v.free[0] as nat).counts == v.counts,
{
    lemma_allocated_wf(v, count, fill);
    let w = v.allocated(count, fill);
    lemma_released_wf(w, v.free[0] as nat);
    let x = w.released(v.free[0] as nat);
    assert(x.free =~= v.free);
    assert(x.counts =~= v.counts);
}

/// Sharing a page and giving one use back leaves everything as it was.
pub proof fn law_retain_release(v: PagesView, pa: nat)
    requires
        v.wf(),
        v.is_page(pa),
        0 < v.count(pa) < u32::MAX - 1,
    ensures
        v.retained(pa).released(pa) == v,
{
    lemma_retained_wf(v, pa);
    lemma_released_wf(v.retained(pa), pa);
    lemma_index(v, pa, pa);
    assert(v.retained(pa).released(pa) =~= v);
}

/// A page that is allocated was not in use, is one of the heap, and holds the byte that it
/// was to be filled with. It is no longer free. All other pages hold what they held and
/// have the users that they had, and are handed out in the same order.
pub proof fn law_allocated(v: PagesView, count: u32, fill: u8, p: nat)
    requires
        v.wf(),
        v.free.len() > 0,
        count > 0,
        v.is_page(p),
    ensures
        ({
            let w = v.allocated(count, fill);
            let new = v.free[0] as nat;
            &&& v.is_page(new)
            &&& v.count(new) == 0
            &&& w.count(new) == count
            &&& !w.free.contains(v.free[0])
            &&& forall|i: int| 0 <= i < 4096 ==> #[trigger] w.page_bytes(new)[i] == fill
            &&& p != new ==> w.count(p) == v.count(p) && w.page_bytes(p) == v.page_bytes(p)
            &&& w.free.len() == v.free.len() - 1
            &&& forall|i: int| 0 <= i < w.free.len() ==> #[trigger] w.free[i] == v.free[i + 1]
        }),
{
    lemma_allocated_wf(v, count, fill);
    let w = v.allocated(count, fill);
    let new = v.free[0] as nat;
    assert(v.free.contains(v.free[0]));
    assert(v.is_page(new));
    assert(v.count(new) == 0);
    lemma_index(v, new, p);
    if p != new {
        assert(w.page_bytes(p) =~= v.page_bytes(p));
    }
    assert(w.is_page(new));
    assert(w.count(new) == count);
    assert(w.free.contains(v.free[0]) <==> w.count(new) == 0);
}

/// A page that is given back loses one user. It is free, and handed out next, if and only if
/// that was the last one or it was not to be shared. Nothing else changes.
pub proof fn law_released(v: PagesView, pa: nat, p: nat)
    requires
        v.wf(),
        v.is_page(pa),
        v.count(pa) > 0,
        v.is_page(p),
    ensures
        ({
            let w = v.released(pa);
            let last = v.count(pa) == 1 || v.count(pa) == u32::MAX;
            &&& last ==> w.count(pa) == 0 && w.free.len() == v.free.len() + 1 && w.free[0] == pa
            &&& last ==> forall|i: int|
                0 <= i < v.free.len() ==> w.free[i + 1] == #[trigger] v.free[i]
            &&& !last ==> w.count(pa) == v.count(pa) - 1 && w.free == v.free
            &&& p != pa ==> w.count(p) == v.count(p)
            &&& w.ram == v.ram
        }),
{
    lemma_released_wf(v, pa);
}

/// A page that is shared has one user more. Nothing else changes.
pub proof fn law_retained(v: PagesView, pa: nat, p: nat)
    requires
        v.wf(),
        v.is_page(pa),
        0 < v.count(pa) < u32::MAX,
        v.is_page(p),
    ensures
        v.retained(pa).count(pa) == v.count(pa) + 1,
        p != pa ==> v.retained(pa).count(p) == v.count(p),
        v.retained(pa).free == v.free,
        v.retained(pa).ram == v.ram,
{
    lemma_retained_wf(v, pa);
}

/// What is written to memory is there afterwards, and no other byte changes.
pub proof fn law_written(v: PagesView, pa: nat, data: Seq<u8>, i: int)
    requires
        v.ram_base <= pa,
        pa + data.len() <= v.ram_base + v.ram.len(),
        0 <= i < v.ram.len(),
    ensures
        v.written(pa, data).ram.len() == v.ram.len(),
        v.written(pa, data).ram[i] == (if pa <= v.ram_base + i < pa + data.len() {
            data[v.ram_base + i - pa]
        } else {
            v.ram[i]
        }),
        v.written(pa, data).counts == v.counts,
        v.written(pa, data).free == v.free,
{
}

/// What is copied from one place in memory to another is at both afterwards, and no other
/// byte changes.
pub proof fn law_copied(bytes: Seq<u8>, src: int, dst: int, len: int, i: int)
    requires
        0 <= src <= src + len <= bytes.len(),
        0 <= dst <= dst + len <= bytes.len(),
        src + len <= dst || dst + len <= src,
    ensures
        copied(bytes, src, dst, len).len() == bytes.len(),
        0 <= i < len ==> copied(bytes, src, dst, len)[dst + i] == bytes[src + i],
        0 <= i < len ==> copied(bytes, src, dst, len)[src + i] == bytes[src + i],
        0 <= i < bytes.len() && !(dst <= i < dst + len) ==> copied(bytes, src, dst, len)[i]
            == bytes[i],
{
}

/// Where the heap begins and how many pages there can be: the states of all of them, four
/// bytes each, stand in front of the heap within the range, and the heap begins with the
/// first page behind them.
pub proof fn law_heap_layout(start: nat, end: nat)
    requires
        round_up(start, 4096) <= round_down(end, 4096),
    ensures
        max_pages(start, end) * 4096 == round_down(end, 4096) - round_up(start, 4096),
        heap_start_of(start, end) % 4096 == 0,
        heap_start_of(start, end) >= start + 4 * max_pages(start, end),
        heap_start_of(start, end) < start + 4 * max_pages(start, end) + 4 + 4096,
{
    lemma_round(start, 4);
    lemma_round(start, 4096);
    lemma_round(end, 4096);
    lemma_round((round_up(start, 4) + PAGE_STATE_SIZE * max_pages(start, end)) as nat, 4096);
    let n = (round_down(end, 4096) - round_up(start, 4096)) as nat;
    assert(n % 4096 == 0);
    assert(n / 4096 * 4096 == n);
}

} // verus!
