//! Virtual and physical addresses.
use super::{level_page_size, level_size, lemma_level_sizes, PAGE_SHIFT, PAGE_SIZE};
use crate::error::KernelError;
use vstd::prelude::*;

verus! {

/// The largest multiple of `size` that is not above `addr`.
pub open spec fn round_down(addr: nat, size: nat) -> nat {
    (addr - addr % size) as nat
}

/// The smallest multiple of `size` that is not below `addr`.
pub open spec fn round_up(addr: nat, size: nat) -> nat {
    round_down((addr + size - 1) as nat, size)
}

/// What rounding gives: a multiple of `size` within `size` of the address, on
/// the right side of it.
pub proof fn lemma_round(addr: nat, size: nat)
    requires
        size > 0,
    ensures
        round_down(addr, size) % size == 0,
        round_down(addr, size) <= addr < round_down(addr, size) + size,
        round_up(addr, size) % size == 0,
        addr <= round_up(addr, size) < addr + size,
        addr % size == 0 ==> round_down(addr, size) == addr && round_up(addr, size) == addr,
{
    lemma_round_down(addr, size);
    lemma_round_down((addr + size - 1) as nat, size);
    if addr % size == 0 {
        assert((addr + (size - 1)) % size as int == size - 1) by {
            vstd::arithmetic::div_mod::lemma_add_mod_noop(addr as int, size - 1, size as int);
            vstd::arithmetic::div_mod::lemma_small_mod((size - 1) as nat, size);
        }
    }
}

proof fn lemma_round_down(addr: nat, size: nat)
    requires
        size > 0,
    ensures
        round_down(addr, size) % size == 0,
        round_down(addr, size) <= addr < round_down(addr, size) + size,
{
    let a = addr as int;
    let s = size as int;
    vstd::arithmetic::div_mod::lemma_fundamental_div_mod(a, s);
    vstd::arithmetic::div_mod::lemma_mod_bound(a, s);
    assert(a - a % s == s * (a / s));
    vstd::arithmetic::div_mod::lemma_mod_multiples_basic(a / s, s);
    vstd::arithmetic::mul::lemma_mul_is_commutative(a / s, s);
}

fn page_roundup(addr: u64) -> (r: u64)
    requires
        addr + PAGE_SIZE - 1 <= u64::MAX,
    ensures
        r == round_up(addr as nat, PAGE_SIZE as nat),
{
    let last: u64 = addr + (PAGE_SIZE - 1);
    last - last % PAGE_SIZE
}

fn page_rounddown(addr: u64) -> (r: u64)
    ensures
        r == round_down(addr as nat, PAGE_SIZE as nat),
{
    addr - addr % PAGE_SIZE
}

fn is_page_aligned(addr: u64) -> (r: bool)
    ensures
        r == (addr % PAGE_SIZE == 0),
{
    addr % PAGE_SIZE == 0
}

fn level_page_roundup(addr: u64, level: usize) -> (r: u64)
    requires
        level <= 2,
        addr + level_size(level as nat) - 1 <= u64::MAX,
    ensures
        r == round_up(addr as nat, level_size(level as nat)),
{
    let page_size: u64 = level_page_size(level);
    let last: u64 = addr + (page_size - 1);
    last - last % page_size
}

fn level_page_rounddown(addr: u64, level: usize) -> (r: u64)
    requires
        level <= 2,
    ensures
        r == round_down(addr as nat, level_size(level as nat)),
{
    let page_size: u64 = level_page_size(level);
    assert(addr % page_size <= addr) by (nonlinear_arith)
        requires
            page_size > 0,
    ;
    addr - addr % page_size
}

fn is_level_page_aligned(addr: u64, level: usize) -> (r: bool)
    requires
        level <= 2,
    ensures
        r == (addr as nat % level_size(level as nat) == 0),
{
    let page_size: u64 = level_page_size(level);
    addr % page_size == 0
}

/// Rounding of addresses to page boundaries.
pub trait PageRound: Sized {
    /// The address as a number.
    spec fn address(&self) -> u64;

    /// Whether a number is an address of this kind.
    spec fn is_address(addr: u64) -> bool;

    /// Returns the address as a number.
    fn as_addr(&self) -> (r: u64)
        ensures
            r == self.address(),
    ;

    /// Makes an address of a number.
    fn from_addr(addr: u64) -> (r: Self)
        requires
            Self::is_address(addr),
        ensures
            r.address() == addr,
    ;

    /// Rounds the address up to a page boundary.
    fn page_roundup(&self) -> (r: Self)
        requires
            self.address() + PAGE_SIZE - 1 <= u64::MAX,
            Self::is_address(round_up(self.address() as nat, PAGE_SIZE as nat) as u64),
        ensures
            r.address() == round_up(self.address() as nat, PAGE_SIZE as nat),
    {
        Self::from_addr(page_roundup(self.as_addr()))
    }

    /// Rounds the address down to a page boundary.
    fn page_rounddown(&self) -> (r: Self)
        requires
            Self::is_address(round_down(self.address() as nat, PAGE_SIZE as nat) as u64),
        ensures
            r.address() == round_down(self.address() as nat, PAGE_SIZE as nat),
    {
        Self::from_addr(page_rounddown(self.as_addr()))
    }

    /// Whether the address lies on a page boundary.
    fn is_page_aligned(&self) -> (r: bool)
        ensures
            r == (self.address() % PAGE_SIZE == 0),
    {
        is_page_aligned(self.as_addr())
    }

    /// Rounds the address up to a boundary of pages of the given level.
    fn level_page_roundup(&self, level: usize) -> (r: Self)
        requires
            level <= 2,
            self.address() + level_size(level as nat) - 1 <= u64::MAX,
            Self::is_address(round_up(self.address() as nat, level_size(level as nat)) as u64),
        ensures
            r.address() == round_up(self.address() as nat, level_size(level as nat)),
    {
        Self::from_addr(level_page_roundup(self.as_addr(), level))
    }

    /// Rounds the address down to a boundary of pages of the given level.
    fn level_page_rounddown(&self, level: usize) -> (r: Self)
        requires
            level <= 2,
            Self::is_address(round_down(self.address() as nat, level_size(level as nat)) as u64),
        ensures
            r.address() == round_down(self.address() as nat, level_size(level as nat)),
    {
        Self::from_addr(level_page_rounddown(self.as_addr(), level))
    }

    /// Whether the address lies on a boundary of pages of the given level.
    fn is_level_page_aligned(&self, level: usize) -> (r: bool)
        requires
            level <= 2,
        ensures
            r == (self.address() as nat % level_size(level as nat) == 0),
    {
        is_level_page_aligned(self.as_addr(), level)
    }
}

impl PageRound for u64 {
    open spec fn address(&self) -> u64 {
        *self
    }

    open spec fn is_address(addr: u64) -> bool {
        true
    }

    fn as_addr(&self) -> u64 {
        *self
    }

    fn from_addr(addr: u64) -> Self {
        addr
    }
}

impl PageRound for VirtAddr {
    open spec fn address(&self) -> u64 {
        self.0
    }

    open spec fn is_address(addr: u64) -> bool {
        addr <= VA_MAX
    }

    fn as_addr(&self) -> u64 {
        self.0
    }

    fn from_addr(addr: u64) -> Self {
        VirtAddr(addr)
    }
}

impl PageRound for PhysAddr {
    open spec fn address(&self) -> u64 {
        self.0
    }

    open spec fn is_address(addr: u64) -> bool {
        true
    }

    fn as_addr(&self) -> u64 {
        self.0
    }

    fn from_addr(addr: u64) -> Self {
        PhysAddr::new(addr)
    }
}

/// One beyond the highest possible virtual address.
///
/// This is one bit less than the most that Sv39 allows, to avoid having to
/// sign-extend virtual addresses that have the high bit set.
pub const VA_MAX: u64 = 0x40_0000_0000;

/// Virtual address.
///
/// The RISC-V Sv39 scheme has three levels of page-table pages. A page-table
/// page contains 512 64-bit entries. A 64-bit virtual address is split into
/// five fields:
/// ```text
///     39..=63 -- must be zero.
///     30..=38 -- 9 bits of level-2 index.
///     21..=29 -- 9 bits of level-1 index.
///     12..=20 -- 9 bits of level-0 index.
///      0..=11 -- 12 bits byte offset with the page.
/// ```
#[derive(Debug, Clone, Copy, PartialEq, Eq, Structural, PartialOrd, Ord)]
pub struct VirtAddr(pub u64);

/// Physical page number of a page.
#[derive(Debug, Clone, Copy, PartialEq, Eq, Structural, PartialOrd, Ord)]
pub struct PhysPageNum(pub u64);

/// Physical address.
#[derive(Debug, Clone, Copy, PartialEq, Eq, Structural, PartialOrd, Ord)]
pub struct PhysAddr(pub u64);

/// The index that address `addr` has in a page table of level `level`.
pub open spec fn idx_at(addr: nat, level: nat) -> nat {
    addr / level_size(level) % 512
}

/// One end of a range of virtual addresses.
#[derive(Debug, Clone, Copy, PartialEq, Eq, Structural)]
pub enum Bound {
    /// The range goes up to this address and contains it.
    Included(VirtAddr),
    /// The range goes up to this address and does not contain it.
    Excluded(VirtAddr),
    /// The range goes as far as virtual addresses do.
    Unbounded,
}

/// A range of virtual addresses, given by its two ends.
#[derive(Debug, Clone, Copy, PartialEq, Eq, Structural)]
pub struct VirtAddrBounds {
    pub start: Bound,
    pub end: Bound,
}

/// A range of virtual addresses that is not empty, given by its first and its
/// last address.
#[derive(Debug, Clone, Copy, PartialEq, Eq, Structural)]
pub struct VirtAddrSpan {
    pub first: VirtAddr,
    pub last: VirtAddr,
}

impl VirtAddrBounds {
    /// The addresses from `start` up to, and without, `end`.
    pub open spec fn half_open(start: VirtAddr, end: VirtAddr) -> Self {
        VirtAddrBounds { start: Bound::Included(start), end: Bound::Excluded(end) }
    }

    /// The addresses from `start` up to, and without, `end`.
    pub fn range(start: VirtAddr, end: VirtAddr) -> (r: Self)
        ensures
            r == Self::half_open(start, end),
    {
        VirtAddrBounds { start: Bound::Included(start), end: Bound::Excluded(end) }
    }

    /// The first address of the range, if there is a virtual address there.
    pub open spec fn first(self) -> Option<nat> {
        match self.start {
            Bound::Included(va) => Some(va.0 as nat),
            Bound::Excluded(va) => if va.0 + 1 <= VA_MAX {
                Some((va.0 + 1) as nat)
            } else {
                None
            },
            Bound::Unbounded => Some(0),
        }
    }

    /// The last address of the range, if there is a virtual address there.
    pub open spec fn last(self) -> Option<nat> {
        match self.end {
            Bound::Included(va) => Some(va.0 as nat),
            Bound::Excluded(va) => if 1 <= va.0 <= VA_MAX + 1 {
                Some((va.0 - 1) as nat)
            } else {
                None
            },
            Bound::Unbounded => Some((VA_MAX - 1) as nat),
        }
    }

    /// Whether the range does not end before it starts.
    pub open spec fn ordered(self) -> bool {
        match (self.start, self.end) {
            (Bound::Unbounded, _) => true,
            (_, Bound::Unbounded) => true,
            (
                Bound::Included(start) | Bound::Excluded(start),
                Bound::Included(end) | Bound::Excluded(end),
            ) => start.0 <= end.0,
        }
    }

    /// Whether the ends of the range are virtual addresses.
    pub open spec fn in_bounds(self) -> bool {
        &&& match self.start {
            Bound::Included(va) | Bound::Excluded(va) => va.0 <= VA_MAX,
            Bound::Unbounded => true,
        }
        &&& match self.end {
            Bound::Included(va) | Bound::Excluded(va) => va.0 <= VA_MAX,
            Bound::Unbounded => true,
        }
    }

    /// Whether the range holds any address.
    pub open spec fn nonempty(self) -> bool {
        self.first() is Some && self.last() is Some && self.first()->0 <= self.last()->0
    }

    /// Whether the range holds the address.
    pub open spec fn holds(self, addr: nat) -> bool {
        self.nonempty() && self.first()->0 <= addr <= self.last()->0
    }
}

impl VirtAddr {
    /// Creates a virtual address; there is none above [`VA_MAX`].
    pub fn new(addr: u64) -> (r: Result<Self, KernelError>)
        ensures
            r == (if addr > VA_MAX {
                Err::<Self, KernelError>(KernelError::TooLargeVirtualAddress(addr))
            } else {
                Ok(VirtAddr(addr))
            }),
    {
        if addr > VA_MAX {
            return Err(KernelError::TooLargeVirtualAddress(addr));
        }
        Ok(VirtAddr(addr))
    }

    /// The address with the index of the given level replaced.
    pub fn with_level_idx(self, level: usize, idx: u64) -> (r: Self)
        requires
            level <= 2,
            idx < 512,
        ensures
            r.0 == self.0 - idx_at(self.0 as nat, level as nat) * level_size(level as nat) + idx
                * level_size(level as nat),
    {
        proof {
            lemma_level_sizes();
        }
        if level == 0 {
            let old_idx: u64 = (self.0 / 0x1000) % 512;
            VirtAddr((self.0 - old_idx * 0x1000) + idx * 0x1000)
        } else if level == 1 {
            let old_idx: u64 = (self.0 / 0x20_0000) % 512;
            VirtAddr((self.0 - old_idx * 0x20_0000) + idx * 0x20_0000)
        } else {
            let old_idx: u64 = (self.0 / 0x4000_0000) % 512;
            VirtAddr((self.0 - old_idx * 0x4000_0000) + idx * 0x4000_0000)
        }
    }

    /// The index of the address in a page table of the given level.
    pub fn level_idx(self, level: usize) -> (r: u64)
        requires
            level <= 2,
        ensures
            r == idx_at(self.0 as nat, level as nat),
            r < 512,
    {
        let size: u64 = level_page_size(level);
        (self.0 / size) % 512
    }

    /// Returns the address as a number.
    pub fn addr(self) -> (r: u64)
        ensures
            r == self.0,
    {
        self.0
    }

    /// The address `offset` bytes further up.
    pub fn byte_add(self, offset: u64) -> (r: Result<Self, KernelError>)
        ensures
            r == self.byte_add_spec(offset),
    {
        match self.0.checked_add(offset) {
            Some(addr) => Self::new(addr),
            None => Err(KernelError::TooLargeVirtualAddress(u64::MAX)),
        }
    }

    /// The address `offset` bytes further up: an error where that is above
    /// [`VA_MAX`].
    pub open spec fn byte_sub_spec(self, offset: u64) -> Result<Self, KernelError> {
        if self.0 < offset {
            Err(KernelError::VirtualAddressUnderflow)
        } else if self.0 - offset > VA_MAX {
            Err(KernelError::TooLargeVirtualAddress((self.0 - offset) as u64))
        } else {
            Ok(VirtAddr((self.0 - offset) as u64))
        }
    }

    /// How far one address lies above another.
    pub open spec fn distance(self, other: Self) -> Option<u64> {
        if self.0 < other.0 {
            None
        } else {
            Some((self.0 - other.0) as u64)
        }
    }

    pub open spec fn byte_add_spec(self, offset: u64) -> Result<Self, KernelError> {
        if self.0 + offset > u64::MAX {
            Err(KernelError::TooLargeVirtualAddress(u64::MAX))
        } else if self.0 + offset > VA_MAX {
            Err(KernelError::TooLargeVirtualAddress((self.0 + offset) as u64))
        } else {
            Ok(VirtAddr((self.0 + offset) as u64))
        }
    }

    /// The address `offset` bytes further down.
    pub fn byte_sub(self, offset: u64) -> (r: Result<Self, KernelError>)
        ensures
            r == (if self.0 < offset {
                Err::<Self, KernelError>(KernelError::VirtualAddressUnderflow)
            } else if self.0 - offset > VA_MAX {
                Err(KernelError::TooLargeVirtualAddress((self.0 - offset) as u64))
            } else {
                Ok(VirtAddr((self.0 - offset) as u64))
            }),
            r == self.byte_sub_spec(offset),
    {
        match self.0.checked_sub(offset) {
            Some(addr) => Self::new(addr),
            None => Err(KernelError::VirtualAddressUnderflow),
        }
    }

    /// The distance from `other` up to this address, if it is not negative.
    pub fn checked_sub(self, other: Self) -> (r: Option<u64>)
        ensures
            r == (if self.0 < other.0 {
                None::<u64>
            } else {
                Some((self.0 - other.0) as u64)
            }),
            r == self.distance(other),
    {
        self.0.checked_sub(other.0)
    }

    /// The first and the last address of a range; `None` if it is empty.
    pub fn range_inclusive(range: VirtAddrBounds) -> (r: Option<VirtAddrSpan>)
        ensures
            r is Some <==> range.nonempty(),
            r matches Some(span) ==> span.first.0 == range.first()->0 && span.last.0
                == range.last()->0,
    {
        let min_va: VirtAddr = match range.start {
            Bound::Included(va) => va,
            Bound::Excluded(va) => match va.byte_add(1) {
                Ok(va) => va,
                Err(_) => return None,
            },
            Bound::Unbounded => VirtAddr(0),
        };
        let max_va: VirtAddr = match range.end {
            Bound::Included(va) => va,
            Bound::Excluded(va) => match va.byte_sub(1) {
                Ok(va) => va,
                Err(_) => return None,
            },
            Bound::Unbounded => VirtAddr(VA_MAX - 1),
        };
        if min_va.0 > max_va.0 {
            return None;
        }
        Some(VirtAddrSpan { first: min_va, last: max_va })
    }
}

impl PhysPageNum {
    /// Wraps a page number.
    pub fn new(value: u64) -> (r: Self)
        ensures
            r.0 == value,
    {
        PhysPageNum(value)
    }

    /// The address of the first byte of the page.
    pub fn phys_addr(self) -> (r: PhysAddr)
        ensures
            r.0 == self.0 << PAGE_SHIFT,
            self.0 < 0x10_0000_0000_0000 ==> r.0 == self.0 * PAGE_SIZE,
    {
        let n: u64 = self.0;
        assert(n < 0x10_0000_0000_0000 ==> n << 12u64 == n * 4096) by (bit_vector);
        PhysAddr(self.0 << PAGE_SHIFT)
    }

    /// Returns the page number.
    pub fn value(self) -> (r: u64)
        ensures
            r == self.0,
    {
        self.0
    }
}

impl PhysAddr {
    /// The address `n` bytes above, where there is one.
    pub open spec fn above(self, n: u64) -> Option<Self> {
        if self.0 + n > u64::MAX {
            None
        } else {
            Some(PhysAddr((self.0 + n) as u64))
        }
    }

    /// The number of the page that the address lies in.
    pub open spec fn page_number(self) -> nat {
        self.0 as nat / PAGE_SIZE as nat
    }

    /// Wraps an address.
    pub fn new(addr: u64) -> (r: Self)
        ensures
            r.0 == addr,
    {
        PhysAddr(addr)
    }

    /// Returns the address as a number.
    pub fn addr(self) -> (r: u64)
        ensures
            r == self.0,
    {
        self.0
    }

    /// The number of the page that holds the address.
    pub fn phys_page_num(self) -> (r: PhysPageNum)
        ensures
            r.0 == self.0 / PAGE_SIZE,
            r.0 == self.page_number(),
    {
        PhysPageNum(self.0 / PAGE_SIZE)
    }

    /// The address `n` bytes further up, if there is one.
    pub fn byte_add(self, n: u64) -> (r: Option<Self>)
        ensures
            r == (if self.0 + n > u64::MAX {
                None::<Self>
            } else {
                Some(PhysAddr((self.0 + n) as u64))
            }),
            r == self.above(n),
    {
        match self.0.checked_add(n) {
            Some(n) => Some(PhysAddr(n)),
            None => None,
        }
    }
}

/// An address that is rounded down lies on the highest boundary that is not above it, and
/// one that is rounded up on the lowest that is not below it.
pub proof fn law_rounding(addr: nat, size: nat, boundary: nat)
    requires
        size > 0,
        boundary % size == 0,
    ensures
        round_down(addr, size) % size == 0,
        round_up(addr, size) % size == 0,
        round_down(addr, size) <= addr <= round_up(addr, size),
        boundary <= addr ==> boundary <= round_down(addr, size),
        boundary >= addr ==> boundary >= round_up(addr, size),
{
    lemma_round(addr, size);
    if boundary <= addr {
        lemma_multiples(round_down(addr, size), boundary, size);
    }
    if boundary >= addr {
        lemma_multiples(boundary, round_up(addr, size), size);
    }
}

/// Multiples that are less than one size apart are in order or the same.
proof fn lemma_multiples(a: nat, b: nat, size: nat)
    requires
        size > 0,
        a % size == 0,
        b % size == 0,
        b < a + size,
    ensures
        b <= a,
{
    vstd::arithmetic::div_mod::lemma_fundamental_div_mod(a as int, size as int);
    vstd::arithmetic::div_mod::lemma_fundamental_div_mod(b as int, size as int);
    let m = a as int / size as int;
    let n = b as int / size as int;
    assert(n < m + 1) by (nonlinear_arith)
        requires
            size * n < size * m + size,
            size > 0,
    ;
    assert(size * n <= size * m) by (nonlinear_arith)
        requires
            n <= m,
            size > 0,
    ;
}

/// An address is made up of its indices, one for each level, and its place in the page.
pub proof fn law_indices(addr: nat)
    requires
        addr < 0x80_0000_0000,
    ensures
        addr == idx_at(addr, 2) * 0x4000_0000 + idx_at(addr, 1) * 0x20_0000 + idx_at(addr, 0)
            * 0x1000 + addr % 0x1000,
        idx_at(addr, 0) < 512,
        idx_at(addr, 1) < 512,
        idx_at(addr, 2) < 512,
{
    lemma_level_sizes();
}

/// A range holds the addresses behind its start and before its end, with or without these
/// as its ends say. Where it has no end it goes up to the highest address.
pub proof fn law_range_holds(range: VirtAddrBounds, x: nat)
    requires
        range.in_bounds(),
    ensures
        range.holds(x) <==> {
            &&& match range.start {
                Bound::Included(va) => va.0 <= x,
                Bound::Excluded(va) => va.0 < x,
                Bound::Unbounded => true,
            }
            &&& match range.end {
                Bound::Included(va) => x <= va.0,
                Bound::Excluded(va) => x < va.0,
                Bound::Unbounded => x < VA_MAX,
            }
        },
        range.nonempty() <==> exists|y: nat| range.holds(y),
{
    if range.nonempty() {
        assert(range.holds(range.first()->0));
    }
}

/// Going up from an address gives the address that lies so many bytes above it, or an error
/// where there is none.
pub proof fn law_byte_add(va: VirtAddr, offset: u64)
    ensures
        va.byte_add_spec(offset) is Ok <==> va.0 + offset <= 0x40_0000_0000,
        va.byte_add_spec(offset) matches Ok(up) ==> up.0 - va.0 == offset,
        va.byte_add_spec(offset) is Err ==> va.byte_add_spec(offset)->Err_0
            is TooLargeVirtualAddress,
{
}

/// A range from one address up to another holds the first and not the second.
pub proof fn law_half_open(start: VirtAddr, end: VirtAddr, x: nat)
    requires
        start.0 <= VA_MAX,
        end.0 <= VA_MAX,
    ensures
        VirtAddrBounds::half_open(start, end).holds(x) <==> start.0 <= x < end.0,
{
}

/// Addresses are rounded as the numbers that they are.
pub proof fn law_addresses(n: u64, va: VirtAddr, pa: PhysAddr)
    ensures
        n.address() == n,
        va.address() == va.0,
        pa.address() == pa.0,
        VirtAddr::is_address(n) <==> n <= 0x40_0000_0000,
{
}

/// Going up and down by the same number of bytes leads back, and the distance between the
/// two addresses is that number.
pub proof fn law_there_and_back(va: VirtAddr, n: u64)
    requires
        va.0 <= VA_MAX,
    ensures
        va.byte_add_spec(n) matches Ok(up) ==> up.byte_sub_spec(n) == Ok::<VirtAddr, KernelError>(va)
            && up.distance(va) == Some(n),
        va.byte_sub_spec(n) matches Ok(down) ==> down.byte_add_spec(n) == Ok::<
            VirtAddr,
            KernelError,
        >(va) && va.distance(down) == Some(n),
        va.byte_sub_spec(n) is Err <==> va.0 < n,
        va.byte_sub_spec(n) matches Err(e) ==> e is VirtualAddressUnderflow,
        va.distance(VirtAddr(n)) is None <==> va.0 < n,
{
}

/// An address in memory lies in the page with its number, as far above its first byte as it
/// was above the last multiple of the page size.
pub proof fn law_page_number(pa: PhysAddr, n: u64)
    ensures
        pa.page_number() * 4096 <= pa.0 < (pa.page_number() + 1) * 4096,
        pa.above(n) is None <==> pa.0 + n > 0xffff_ffff_ffff_ffff,
        pa.above(n) matches Some(up) ==> up.0 - pa.0 == n,
{
}

} // verus!
