//! Allocator of equally sized pieces of memory.
use core::marker::PhantomData;
use core::ops::Range;
use vstd::prelude::*;

verus! {

/// The pieces of size `size` that the addresses from `start` to `end` hold, lowest first.
pub open spec fn pieces(start: nat, end: nat, size: nat) -> Seq<u64> {
    Seq::new((end - start) as nat / size, |i: int| (start + i * size) as u64)
}

/// Whether `addr` is the address of one of the pieces of size `size` from `start` to `end`.
pub open spec fn is_piece(start: nat, end: nat, size: nat, addr: nat) -> bool {
    start <= addr < end && (addr - start) as nat % size == 0
}

proof fn lemma_pieces(start: nat, end: nat, size: nat)
    requires
        size > 0,
        start <= end <= u64::MAX,
        (end - start) as nat % size == 0,
    ensures
        forall|i: int|
            0 <= i < pieces(start, end, size).len() ==> {
                &&& is_piece(start, end, size, #[trigger] pieces(start, end, size)[i] as nat)
                &&& pieces(start, end, size)[i] == start + i * size
            },
        pieces(start, end, size).no_duplicates(),
{
    let n = (end - start) as nat / size;
    vstd::arithmetic::div_mod::lemma_fundamental_div_mod(end - start, size as int);
    assert forall|i: int| 0 <= i < n implies {
        &&& is_piece(start, end, size, #[trigger] pieces(start, end, size)[i] as nat)
        &&& pieces(start, end, size)[i] == start + i * size
    } by {
        assert(i * size + size <= n * size) by (nonlinear_arith)
            requires
                i + 1 <= n,
        ;
        assert(n * size == size * n) by (nonlinear_arith);
        assert(0 <= i * size) by (nonlinear_arith)
            requires
                0 <= i,
        ;
        vstd::arithmetic::div_mod::lemma_mod_multiples_basic(i, size as int);
    }
    assert forall|i: int, j: int| 0 <= i < n && 0 <= j < n && i != j implies pieces(start, end, size)[i]
        != pieces(start, end, size)[j] by {
        assert(i * size != j * size) by (nonlinear_arith)
            requires
                i != j,
                size > 0,
        ;
    }
}

/// A stack of free pieces of memory, all of one size and from one range of addresses.
pub struct RunList {
    start: u64,
    end: u64,
    size: u64,
    /// The free pieces; the next one to hand out is the last.
    free: Vec<u64>,
}

impl RunList {
    /// The lowest address of the range.
    pub closed spec fn start(self) -> u64 {
        self.start
    }

    /// The address one beyond the range.
    pub closed spec fn end(self) -> u64 {
        self.end
    }

    /// The size of one piece.
    pub closed spec fn size(self) -> u64 {
        self.size
    }

    /// The free pieces, in the order in which they will be handed out.
    pub closed spec fn free_list(self) -> Seq<u64> {
        self.free@.reverse()
    }

    /// Every free piece lies in the range, and none is listed twice.
    pub open spec fn wf(self) -> bool {
        &&& 0 < self.size()
        &&& self.start() <= self.end()
        &&& (self.end() - self.start()) as nat % self.size() as nat == 0
        &&& self.free_list().no_duplicates()
        &&& forall|i: int|
            0 <= i < self.free_list().len() ==> self.owns(#[trigger] self.free_list()[i] as nat)
    }

    /// Whether `addr` is one of the pieces of the range, free or not.
    pub open spec fn owns(self, addr: nat) -> bool {
        is_piece(self.start() as nat, self.end() as nat, self.size() as nat, addr)
    }

    /// Whether the range and the size of a piece are the same.
    pub open spec fn same_range(self, other: Self) -> bool {
        self.start() == other.start() && self.end() == other.end() && self.size() == other.size()
    }

    /// Puts every piece of the range on the stack, the lowest on top.
    pub fn new(start: u64, end: u64, size: u64) -> (r: Self)
        requires
            0 < size,
            start <= end,
            (end - start) as nat % size as nat == 0,
        ensures
            r.wf(),
            r.start() == start,
            r.end() == end,
            r.size() == size,
            r.free_list() == pieces(start as nat, end as nat, size as nat),
    {
        let ghost all = pieces(start as nat, end as nat, size as nat);
        let ghost n = all.len();
        let mut free: Vec<u64> = Vec::new();
        let mut p: u64 = end;
        proof {
            lemma_pieces(start as nat, end as nat, size as nat);
            vstd::arithmetic::div_mod::lemma_fundamental_div_mod(end - start, size as int);
        }
        while p > start
            invariant
                0 < size,
                start <= p <= end,
                all == pieces(start as nat, end as nat, size as nat),
                n == all.len(),
                end - start == size * n,
                free@.len() <= n,
                p == end - size * free@.len(),
                forall|i: int| 0 <= i < free@.len() ==> #[trigger] free@[i] == all[n - 1 - i],
                forall|i: int| 0 <= i < n ==> #[trigger] all[i] == start + i * size,
            decreases p - start,
        {
            let ghost k = free@.len() as int;
            proof {
                assert(size * n - size * k == size * (n - k)) by (nonlinear_arith);
                assert(size * (n - k) > 0 ==> n - k >= 1) by (nonlinear_arith)
                    requires
                        size > 0,
                ;
                assert(n - k >= 1 ==> size * (n - k) >= size) by (nonlinear_arith)
                    requires
                        size > 0,
                ;
                assert(size * (k + 1) == size * k + size) by (nonlinear_arith);
                assert(size * (n - (k + 1)) == size * n - size * (k + 1)) by (nonlinear_arith);
                assert(size * (n - 1 - k) == (n - 1 - k) * size) by (nonlinear_arith);
            }
            p = p - size;
            assert(all[n - 1 - k] == start + (n - 1 - k) * size);
            free.push(p);
        }
        proof {
            let k = free@.len() as int;
            assert(k == n) by {
                if k < n {
                    assert(size * n - size * k == size * (n - k)) by (nonlinear_arith);
                    assert(size * (n - k) >= size) by (nonlinear_arith)
                        requires
                            size > 0,
                            n - k >= 1,
                    ;
                }
            }
            assert(free@.reverse() =~= all);
        }
        RunList { start, end, size, free }
    }

    /// Takes the top piece off the stack.
    pub fn pop(&mut self) -> (r: Option<u64>)
        requires
            old(self).wf(),
        ensures
            final(self).wf(),
            final(self).same_range(*old(self)),
            old(self).free_list().len() == 0 ==> r is None && final(self).free_list()
                == old(self).free_list(),
            old(self).free_list().len() > 0 ==> r == Some(old(self).free_list()[0])
                && final(self).free_list() == old(self).free_list().drop_first(),
            r matches Some(addr) ==> old(self).owns(addr as nat)
                && !final(self).free_list().contains(addr),
            handed_out(old(self).free_list(), final(self).free_list(), r),
    {
        let ghost before = self.free_list();
        let r = self.free.pop();
        proof {
            if r is Some {
                assert(self.free_list() =~= before.drop_first());
                assert forall|i: int| 0 <= i < self.free_list().len() implies self.owns(
                    #[trigger] self.free_list()[i] as nat,
                ) by {
                    assert(self.free_list()[i] == before[i + 1]);
                }
            } else {
                assert(self.free_list() =~= before);
            }
        }
        r
    }

    /// Puts a piece on top of the stack.
    pub fn push(&mut self, addr: u64)
        requires
            old(self).wf(),
            old(self).owns(addr as nat),
            !old(self).free_list().contains(addr),
        ensures
            final(self).wf(),
            final(self).same_range(*old(self)),
            final(self).free_list() == seq![addr] + old(self).free_list(),
            given_back(old(self).free_list(), final(self).free_list(), addr),
    {
        let ghost before = self.free_list();
        self.free.push(addr);
        proof {
            assert(self.free_list() =~= seq![addr] + before);
            assert forall|i: int| 0 <= i < self.free_list().len() implies self.owns(
                #[trigger] self.free_list()[i] as nat,
            ) by {
                if i > 0 {
                    assert(self.free_list()[i] == before[i - 1]);
                }
            }
            assert forall|i: int, j: int|
                0 <= i < self.free_list().len() && 0 <= j < self.free_list().len() && i
                    != j implies self.free_list()[i] != self.free_list()[j] by {
                if i > 0 {
                    assert(self.free_list()[i] == before[i - 1]);
                }
                if j > 0 {
                    assert(self.free_list()[j] == before[j - 1]);
                }
            }
        }
    }

    /// The number of free pieces.
    pub fn len(&self) -> (r: usize)
        ensures
            r == self.free_list().len(),
    {
        self.free.len()
    }

    /// The lowest address of the range.
    pub fn range_start(&self) -> (r: u64)
        ensures
            r == self.start(),
    {
        self.start
    }

    /// The address one beyond the range.
    pub fn range_end(&self) -> (r: u64)
        ensures
            r == self.end(),
    {
        self.end
    }
}

/// An allocator of memory for values of type `T`, out of one range of addresses.
pub struct SlabAllocator<T> {
    runs: RunList,
    phantom: PhantomData<T>,
}

impl<T> SlabAllocator<T> {
    /// The lowest address of the range.
    pub closed spec fn start(self) -> u64 {
        self.runs.start()
    }

    /// The address one beyond the range.
    pub closed spec fn end(self) -> u64 {
        self.runs.end()
    }

    /// The free pieces, in the order in which they will be handed out.
    pub closed spec fn free_list(self) -> Seq<u64> {
        self.runs.free_list()
    }

    /// Every free piece lies in the range and is aligned, and none is listed twice.
    pub closed spec fn wf(self) -> bool {
        &&& self.runs.wf()
        &&& self.runs.size() == vstd::layout::size_of::<T>()
        &&& vstd::layout::align_of::<T>() > 0
        &&& vstd::layout::size_of::<T>() % vstd::layout::align_of::<T>() == 0
        &&& self.runs.start() as nat % vstd::layout::align_of::<T>() == 0
    }

    /// Whether `addr` is one of the pieces of the range, free or not.
    pub open spec fn owns(self, addr: nat) -> bool {
        is_piece(self.start() as nat, self.end() as nat, vstd::layout::size_of::<T>(), addr)
    }

    /// Creates an allocator that manages the given range of addresses.
    ///
    /// A value of type `T` has room for the link of a list of free pieces; the
    /// range is aligned for `T` and holds a whole number of values.
    #[must_use]
    pub fn new(range: Range<u64>) -> (r: Self)
        requires
            8 <= vstd::layout::size_of::<T>(),
            vstd::layout::align_of::<T>() % 8 == 0,
            vstd::layout::align_of::<T>() > 0,
            range.start as nat % vstd::layout::align_of::<T>() == 0,
            range.end as nat % vstd::layout::align_of::<T>() == 0,
            range.start <= range.end,
            range.start < range.end ==> range.start > 0,
            (range.end - range.start) as nat % vstd::layout::size_of::<T>() == 0,
        ensures
            r.wf(),
            r.start() == range.start,
            r.end() == range.end,
            r.free_list() == pieces(
                range.start as nat,
                range.end as nat,
                vstd::layout::size_of::<T>(),
            ),
    {
        vstd::layout::layout_for_type_is_valid::<T>();
        let size: u64 = core::mem::size_of::<T>() as u64;
        SlabAllocator { runs: RunList::new(range.start, range.end, size), phantom: PhantomData }
    }

    /// Allocates memory for one value: the piece that was freed last, or the
    /// lowest one that was never handed out.
    pub fn allocate(&mut self) -> (r: Option<u64>)
        requires
            old(self).wf(),
        ensures
            final(self).wf(),
            final(self).start() == old(self).start(),
            final(self).end() == old(self).end(),
            old(self).free_list().len() == 0 ==> r is None && final(self).free_list()
                == old(self).free_list(),
            old(self).free_list().len() > 0 ==> r == Some(old(self).free_list()[0])
                && final(self).free_list() == old(self).free_list().drop_first(),
            r matches Some(addr) ==> {
                &&& old(self).owns(addr as nat)
                &&& addr as nat % vstd::layout::align_of::<T>() == 0
                &&& !final(self).free_list().contains(addr)
            },
            handed_out(old(self).free_list(), final(self).free_list(), r),
    {
        let r = self.runs.pop();
        proof {
            if let Some(addr) = r {
                lemma_piece_aligned(
                    self.runs.start() as nat,
                    vstd::layout::size_of::<T>(),
                    vstd::layout::align_of::<T>(),
                    addr as nat,
                );
            }
        }
        r
    }

    /// Frees memory that [`SlabAllocator::allocate`] handed out and that has not
    /// been freed since.
    pub fn deallocate(&mut self, addr: u64)
        requires
            old(self).wf(),
            old(self).owns(addr as nat),
            !old(self).free_list().contains(addr),
        ensures
            final(self).wf(),
            final(self).start() == old(self).start(),
            final(self).end() == old(self).end(),
            final(self).free_list() == seq![addr] + old(self).free_list(),
            given_back(old(self).free_list(), final(self).free_list(), addr),
    {
        self.runs.push(addr);
    }
}

proof fn lemma_piece_aligned(start: nat, size: nat, align: nat, addr: nat)
    requires
        size > 0,
        align > 0,
        size % align == 0,
        start % align == 0,
        start <= addr,
        (addr - start) as nat % size == 0,
    ensures
        addr % align == 0,
{
    let d = (addr - start) as int;
    vstd::arithmetic::div_mod::lemma_fundamental_div_mod(d, size as int);
    vstd::arithmetic::div_mod::lemma_fundamental_div_mod(size as int, align as int);
    vstd::arithmetic::div_mod::lemma_fundamental_div_mod(start as int, align as int);
    let k = d / size as int;
    let m = size as int / align as int;
    let q = start as int / align as int;
    assert(addr == (q + m * k) * align) by (nonlinear_arith)
        requires
            addr == start + size * k,
            size == align * m,
            start == align * q,
    ;
    vstd::arithmetic::div_mod::lemma_mod_multiples_basic(q + m * k, align as int);
}

/// Every address that is allocated is one that was free, and stays out of the
/// list of free pieces until it is freed; freeing it and allocating again gives
/// it back.
pub proof fn law_allocate_deallocate(free: Seq<u64>, addr: u64)
    requires
        free.no_duplicates(),
        free.len() > 0,
        addr == free[0],
    ensures
        !free.drop_first().contains(addr),
        seq![addr] + free.drop_first() == free,
        (seq![addr] + free)[0] == addr,
        (seq![addr] + free).drop_first() == free,
{
    assert(seq![addr] + free.drop_first() =~= free);
    assert((seq![addr] + free).drop_first() =~= free);
}

/// Whether a piece has been taken off a list of free ones.
pub open spec fn handed_out(before: Seq<u64>, after: Seq<u64>, r: Option<u64>) -> bool {
    match r {
        None => before.len() == 0 && after == before,
        Some(addr) => before.len() > 0 && addr == before[0] && after == before.drop_first(),
    }
}

/// Whether a piece has been put on a list of free ones.
pub open spec fn given_back(before: Seq<u64>, after: Seq<u64>, addr: u64) -> bool {
    after == seq![addr] + before
}

/// A piece is handed out whenever one is free. It was free and is not any more; all others
/// stay free, and will be handed out in the same order.
pub proof fn law_handed_out(before: Seq<u64>, after: Seq<u64>, r: Option<u64>, other: u64)
    requires
        before.no_duplicates(),
        handed_out(before, after, r),
    ensures
        r is Some <==> before.len() > 0,
        r matches Some(addr) ==> {
            &&& before.contains(addr)
            &&& !after.contains(addr)
            &&& other != addr ==> (after.contains(other) <==> before.contains(other))
            &&& after.len() == before.len() - 1
            &&& forall|i: int| 0 <= i < after.len() ==> #[trigger] after[i] == before[i + 1]
        },
        r is None ==> after == before,
{
    if r is Some {
        assert(before[0] == r->0);
        if after.contains(other) {
            let k = after.index_of(other);
            assert(before[k + 1] == other);
        }
        if before.contains(other) && other != r->0 {
            let k = before.index_of(other);
            assert(after[k - 1] == other);
        }
        if after.contains(r->0) {
            let k = after.index_of(r->0);
            assert(before[k + 1] == before[0]);
        }
    }
}

/// What was given back last is handed out next, and the list is then as it was before.
pub proof fn law_last_back_first_out(
    before: Seq<u64>,
    mid: Seq<u64>,
    after: Seq<u64>,
    addr: u64,
    r: Option<u64>,
)
    requires
        given_back(before, mid, addr),
        handed_out(mid, after, r),
    ensures
        mid.contains(addr),
        mid.len() == before.len() + 1,
        r == Some(addr),
        after == before,
{
    assert(mid[0] == addr);
    assert(mid.drop_first() =~= before);
}

/// At first all pieces of a range are free, the lowest first: they lie one behind the other,
/// as far apart as one is large, and fill the range.
pub proof fn law_pieces(start: nat, end: nat, size: nat, i: int)
    requires
        size > 0,
        start <= end <= u64::MAX,
        (end - start) as nat % size == 0,
        0 <= i < pieces(start, end, size).len(),
    ensures
        pieces(start, end, size).no_duplicates(),
        pieces(start, end, size).len() * size == end - start,
        pieces(start, end, size)[0] == start,
        pieces(start, end, size)[i] == start + i * size,
        i + 1 < pieces(start, end, size).len() ==> pieces(start, end, size)[i + 1] == pieces(
            start,
            end,
            size,
        )[i] + size,
        i + 1 == pieces(start, end, size).len() ==> pieces(start, end, size)[i] + size == end,
{
    let n = pieces(start, end, size).len();
    lemma_pieces(start, end, size);
    vstd::arithmetic::div_mod::lemma_fundamental_div_mod(end - start, size as int);
    assert(n * size == size * n) by (nonlinear_arith);
    assert(0 * size == 0) by (nonlinear_arith);
    assert((i + 1) * size == i * size + size) by (nonlinear_arith);
    assert(pieces(start, end, size)[i] == start + i * size);
    assert(pieces(start, end, size)[0] == start + 0 * size);
    if i + 1 < n {
        assert(pieces(start, end, size)[i + 1] == start + (i + 1) * size);
    }
}

/// An address is that of a piece if and only if it is among the pieces of the range.
pub proof fn law_is_piece(start: nat, end: nat, size: nat, addr: u64)
    requires
        size > 0,
        start <= end <= u64::MAX,
        (end - start) as nat % size == 0,
    ensures
        is_piece(start, end, size, addr as nat) <==> pieces(start, end, size).contains(addr),
{
    let all = pieces(start, end, size);
    lemma_pieces(start, end, size);
    if all.contains(addr) {
        let i = all.index_of(addr);
        assert(all[i] == addr);
    }
    if is_piece(start, end, size, addr as nat) {
        let d = (addr - start) as int;
        let i = d / size as int;
        vstd::arithmetic::div_mod::lemma_fundamental_div_mod(d, size as int);
        vstd::arithmetic::div_mod::lemma_fundamental_div_mod(end - start, size as int);
        assert(size * i == i * size) by (nonlinear_arith);
        let n = all.len() as int;
        assert(i < n) by (nonlinear_arith)
            requires
                size * i < size * n,
                size > 0,
        ;
        assert(i >= 0) by (nonlinear_arith)
            requires
                size * i >= 0,
                size > 0,
        ;
        assert(all[i] == start + i * size);
        assert(all[i] == addr);
    }
}

} // verus!
