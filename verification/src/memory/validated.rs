//! References into the memory of a process, before and after they have been
//! checked.
use super::addr::{VirtAddr, VA_MAX};
use super::page_manager::PageManager;
use super::page_table::entry::PtEntryFlags;
use super::vm_user::{user_read, user_write, UserPageTable};
use crate::bytes::{le_number, read_le_u64};
use crate::error::KernelError;
use crate::syscall::{
    array_size, can_cast, element_addr, UserMutRef, UserMutSlice, UserRef, UserSlice,
};
use core::ops::Range;
use vstd::prelude::*;

verus! {

/// The addresses of `size` bytes from `addr` on.
///
/// There are none if `size` does not fit in a machine word, or if one of the
/// addresses is too large.
pub open spec fn va_range_of(addr: u64, size: nat) -> Result<Range<VirtAddr>, KernelError> {
    if size > u64::MAX {
        Err(KernelError::TooLargeVirtualAddress(u64::MAX))
    } else if addr > VA_MAX {
        Err(KernelError::TooLargeVirtualAddress(addr))
    } else {
        match VirtAddr(addr).byte_add_spec(size as u64) {
            Ok(end) => Ok(Range { start: VirtAddr(addr), end }),
            Err(e) => Err(e),
        }
    }
}

fn va_range(addr: u64, size: u64) -> (r: Result<Range<VirtAddr>, KernelError>)
    ensures
        r == va_range_of(addr, size as nat),
{
    match VirtAddr::new(addr) {
        Ok(start) => match start.byte_add(size) {
            Ok(end) => Ok(Range { start, end }),
            Err(e) => Err(e),
        },
        Err(e) => Err(e),
    }
}

/// Something that says which addresses it takes up.
pub trait TryAsVirtAddrRange {
    /// The addresses, or why there are none.
    spec fn va_range(&self) -> Result<Range<VirtAddr>, KernelError>;

    /// Returns the addresses, or why there are none.
    fn try_as_va_range(&self) -> (r: Result<Range<VirtAddr>, KernelError>)
        ensures
            r == self.va_range(),
    ;
}

impl TryAsVirtAddrRange for Range<VirtAddr> {
    open spec fn va_range(&self) -> Result<Range<VirtAddr>, KernelError> {
        Ok(*self)
    }

    fn try_as_va_range(&self) -> (r: Result<Range<VirtAddr>, KernelError>) {
        Ok(Range { start: self.start, end: self.end })
    }
}

impl<T> TryAsVirtAddrRange for UserRef<T> {
    open spec fn va_range(&self) -> Result<Range<VirtAddr>, KernelError> {
        va_range_of(self.addr, vstd::layout::size_of::<T>())
    }

    fn try_as_va_range(&self) -> (r: Result<Range<VirtAddr>, KernelError>) {
        va_range(self.addr(), self.size())
    }
}

impl<T> TryAsVirtAddrRange for UserMutRef<T> {
    open spec fn va_range(&self) -> Result<Range<VirtAddr>, KernelError> {
        va_range_of(self.addr, vstd::layout::size_of::<T>())
    }

    fn try_as_va_range(&self) -> (r: Result<Range<VirtAddr>, KernelError>) {
        va_range(self.addr(), self.size())
    }
}

impl<T> TryAsVirtAddrRange for UserSlice<T> {
    open spec fn va_range(&self) -> Result<Range<VirtAddr>, KernelError> {
        va_range_of(self.addr, array_size::<T>(self.len as nat))
    }

    fn try_as_va_range(&self) -> (r: Result<Range<VirtAddr>, KernelError>) {
        match self.size() {
            Some(size) => va_range(self.addr(), size),
            None => Err(KernelError::TooLargeVirtualAddress(u64::MAX)),
        }
    }
}

impl<T> TryAsVirtAddrRange for UserMutSlice<T> {
    open spec fn va_range(&self) -> Result<Range<VirtAddr>, KernelError> {
        va_range_of(self.addr, array_size::<T>(self.len as nat))
    }

    fn try_as_va_range(&self) -> (r: Result<Range<VirtAddr>, KernelError>) {
        match self.size() {
            Some(size) => va_range(self.addr(), size),
            None => Err(KernelError::TooLargeVirtualAddress(u64::MAX)),
        }
    }
}

impl<T: TryAsVirtAddrRange> TryAsVirtAddrRange for &T {
    open spec fn va_range(&self) -> Result<Range<VirtAddr>, KernelError> {
        (**self).va_range()
    }

    fn try_as_va_range(&self) -> (r: Result<Range<VirtAddr>, KernelError>) {
        (**self).try_as_va_range()
    }
}

/// Something whose addresses have been checked.
pub trait AsVirtAddrRange {
    /// Whether there are addresses, as the check has shown.
    spec fn is_checked(&self) -> bool;

    /// The addresses.
    spec fn checked_range(&self) -> Range<VirtAddr>;

    /// Returns the addresses.
    fn as_va_range(&self) -> (r: Range<VirtAddr>)
        requires
            self.is_checked(),
        ensures
            r == self.checked_range(),
    ;
}

impl<R: TryAsVirtAddrRange> AsVirtAddrRange for Validated<R> {
    open spec fn is_checked(&self) -> bool {
        self.inner().va_range() is Ok
    }

    open spec fn checked_range(&self) -> Range<VirtAddr> {
        self.inner().va_range()->Ok_0
    }

    fn as_va_range(&self) -> (r: Range<VirtAddr>) {
        match self.0.try_as_va_range() {
            Ok(range) => range,
            Err(_) => vstd::pervasive::unreached(),
        }
    }
}

impl<R: TryAsVirtAddrRange> AsVirtAddrRange for &Validated<R> {
    open spec fn is_checked(&self) -> bool {
        self.inner().va_range() is Ok
    }

    open spec fn checked_range(&self) -> Range<VirtAddr> {
        self.inner().va_range()->Ok_0
    }

    fn as_va_range(&self) -> (r: Range<VirtAddr>) {
        (**self).as_va_range()
    }
}

/// A reference into the memory of a process that has been checked.
#[derive(Debug, Clone, Copy)]
pub struct Validated<T>(T);

impl<T> Validated<T> {
    /// What has been checked.
    pub closed spec fn inner(self) -> T {
        self.0
    }
}

/// A reference into the memory of a process that can be checked.
pub trait Validate: Sized + TryAsVirtAddrRange {
    /// What the process must be able to do with the addresses.
    spec fn needs() -> PtEntryFlags;

    /// Checks the reference: all addresses must be mapped for the process, in the
    /// way that it needs them.
    fn validate(self, pt: &UserPageTable) -> (r: Result<Validated<Self>, KernelError>)
        requires
            pt.pt.shaped(),
        ensures
            r is Ok <==> (self.va_range() matches Ok(range) && pt.allows(range, Self::needs())),
            r matches Ok(checked) ==> checked.inner() == self,
            r matches Err(e) ==> match self.va_range() {
                Ok(range) => pt.refuses(range, Self::needs(), e),
                Err(unmappable) => e == unmappable,
            },
    ;
}

impl<T> Validate for UserRef<T> {
    open spec fn needs() -> PtEntryFlags {
        user_read()
    }

    fn validate(self, pt: &UserPageTable) -> (r: Result<Validated<Self>, KernelError>) {
        match self.try_as_va_range() {
            Ok(range) => match pt.validate_user_read(range) {
                Ok(_) => Ok(Validated(self)),
                Err(e) => Err(e),
            },
            Err(e) => Err(e),
        }
    }
}

impl<T> Validate for UserMutRef<T> {
    open spec fn needs() -> PtEntryFlags {
        user_write()
    }

    fn validate(self, pt: &UserPageTable) -> (r: Result<Validated<Self>, KernelError>) {
        match self.try_as_va_range() {
            Ok(range) => match pt.validate_user_write(range) {
                Ok(_) => Ok(Validated(self)),
                Err(e) => Err(e),
            },
            Err(e) => Err(e),
        }
    }
}

impl<T> Validate for UserSlice<T> {
    open spec fn needs() -> PtEntryFlags {
        user_read()
    }

    fn validate(self, pt: &UserPageTable) -> (r: Result<Validated<Self>, KernelError>) {
        match self.try_as_va_range() {
            Ok(range) => match pt.validate_user_read(range) {
                Ok(_) => Ok(Validated(self)),
                Err(e) => Err(e),
            },
            Err(e) => Err(e),
        }
    }
}

impl<T> Validate for UserMutSlice<T> {
    open spec fn needs() -> PtEntryFlags {
        user_write()
    }

    fn validate(self, pt: &UserPageTable) -> (r: Result<Validated<Self>, KernelError>) {
        match self.try_as_va_range() {
            Ok(range) => match pt.validate_user_write(range) {
                Ok(_) => Ok(Validated(self)),
                Err(e) => Err(e),
            },
            Err(e) => Err(e),
        }
    }
}

impl<T> Validated<UserRef<T>> {
    /// Returns the address of the reference.
    pub fn addr(&self) -> (r: u64)
        ensures
            r == self.inner().addr,
    {
        self.0.addr()
    }

    /// Returns the size of what is referred to.
    pub fn size(&self) -> (r: u64)
        ensures
            r as nat == vstd::layout::size_of::<T>(),
    {
        self.0.size()
    }

    /// Converts the reference into a byte slice.
    pub fn as_bytes(&self) -> (r: Validated<UserSlice<u8>>)
        ensures
            r.inner().addr == self.inner().addr,
            r.inner().len as nat == vstd::layout::size_of::<T>(),
    {
        Validated(self.0.as_bytes())
    }
}

impl<T> Validated<UserMutRef<T>> {
    /// Returns the address of the reference.
    pub fn addr(&self) -> (r: u64)
        ensures
            r == self.inner().addr,
    {
        self.0.addr()
    }

    /// Returns the size of what is referred to.
    pub fn size(&self) -> (r: u64)
        ensures
            r as nat == vstd::layout::size_of::<T>(),
    {
        self.0.size()
    }

    /// Converts the reference into a mutable byte slice.
    pub fn as_bytes_mut(&mut self) -> (r: Validated<UserMutSlice<u8>>)
        ensures
            r.inner().addr == old(self).inner().addr,
            r.inner().len as nat == vstd::layout::size_of::<T>(),
            *final(self) == *old(self),
    {
        Validated(self.0.as_bytes_mut())
    }
}

impl<T> Validated<UserSlice<T>> {
    /// Returns the address of the slice.
    pub fn addr(&self) -> (r: u64)
        ensures
            r == self.inner().addr,
    {
        self.0.addr()
    }

    /// Returns the length of the slice.
    pub fn len(&self) -> (r: u64)
        ensures
            r == self.inner().len,
    {
        self.0.len()
    }

    /// Returns the size of the slice in bytes.
    pub fn size(&self) -> (r: u64)
        requires
            array_size::<T>(self.inner().len as nat) <= u64::MAX,
        ensures
            r == array_size::<T>(self.inner().len as nat),
    {
        match self.0.size() {
            Some(size) => size,
            None => vstd::pervasive::unreached(),
        }
    }

    /// Casts the slice to a slice of another type.
    pub fn cast<U>(&self) -> (r: Validated<UserSlice<U>>)
        requires
            can_cast::<T, U>(self.inner().addr as nat, self.inner().len as nat),
        ensures
            r.inner().addr == self.inner().addr,
            r.inner().len == array_size::<T>(self.inner().len as nat) / vstd::layout::size_of::<U>(),
    {
        Validated(self.0.cast())
    }

    /// Returns a reference to the nth element in the slice.
    pub fn nth(&self, n: u64) -> (r: Validated<UserRef<T>>)
        requires
            n < self.inner().len,
            element_addr::<T>(self.inner().addr as nat, n as nat) <= u64::MAX,
        ensures
            r.inner().addr == element_addr::<T>(self.inner().addr as nat, n as nat),
    {
        Validated(self.0.nth(n))
    }

    /// Skips the first `amt` elements of the slice.
    pub fn skip(&self, amt: u64) -> (r: Self)
        requires
            amt <= self.inner().len,
            element_addr::<T>(self.inner().addr as nat, amt as nat) <= u64::MAX,
        ensures
            r.inner().addr == element_addr::<T>(self.inner().addr as nat, amt as nat),
            r.inner().len == self.inner().len - amt,
    {
        Validated(self.0.skip(amt))
    }

    /// Takes the first `amt` elements of the slice.
    pub fn take(&self, amt: u64) -> (r: Self)
        requires
            amt <= self.inner().len,
        ensures
            r.inner().addr == self.inner().addr,
            r.inner().len == amt,
    {
        Validated(self.0.take(amt))
    }
}

impl<T> Validated<UserMutSlice<T>> {
    /// Returns the address of the slice.
    pub fn addr(&self) -> (r: u64)
        ensures
            r == self.inner().addr,
    {
        self.0.addr()
    }

    /// Returns the length of the slice.
    pub fn len(&self) -> (r: u64)
        ensures
            r == self.inner().len,
    {
        self.0.len()
    }

    /// Returns the size of the slice in bytes.
    pub fn size(&self) -> (r: u64)
        requires
            array_size::<T>(self.inner().len as nat) <= u64::MAX,
        ensures
            r == array_size::<T>(self.inner().len as nat),
    {
        match self.0.size() {
            Some(size) => size,
            None => vstd::pervasive::unreached(),
        }
    }

    /// Casts the slice to a slice of another type.
    pub fn cast_mut<U>(&mut self) -> (r: Validated<UserMutSlice<U>>)
        requires
            can_cast::<T, U>(old(self).inner().addr as nat, old(self).inner().len as nat),
        ensures
            r.inner().addr == old(self).inner().addr,
            r.inner().len == array_size::<T>(old(self).inner().len as nat) / vstd::layout::size_of::<U>(),
            *final(self) == *old(self),
    {
        Validated(self.0.cast_mut())
    }

    /// Returns a reference to the nth element in the slice.
    pub fn nth_mut(&mut self, n: u64) -> (r: Validated<UserMutRef<T>>)
        requires
            n < old(self).inner().len,
            element_addr::<T>(old(self).inner().addr as nat, n as nat) <= u64::MAX,
        ensures
            r.inner().addr == element_addr::<T>(old(self).inner().addr as nat, n as nat),
            *final(self) == *old(self),
    {
        Validated(self.0.nth_mut(n))
    }

    /// Skips the first `amt` elements of the slice.
    pub fn skip_mut(&mut self, amt: u64) -> (r: Self)
        requires
            amt <= old(self).inner().len,
            element_addr::<T>(old(self).inner().addr as nat, amt as nat) <= u64::MAX,
        ensures
            r.inner().addr == element_addr::<T>(old(self).inner().addr as nat, amt as nat),
            r.inner().len == old(self).inner().len - amt,
            *final(self) == *old(self),
    {
        Validated(self.0.skip_mut(amt))
    }

    /// Takes the first `amt` elements of the slice.
    pub fn take_mut(&mut self, amt: u64) -> (r: Self)
        requires
            amt <= old(self).inner().len,
        ensures
            r.inner().addr == old(self).inner().addr,
            r.inner().len == amt,
            *final(self) == *old(self),
    {
        Validated(self.0.take_mut(amt))
    }
}

/// A slice in the memory of a process or of the kernel.
pub enum GenericSlice<'a, T> {
    User(&'a UserPageTable, Validated<UserSlice<T>>),
    Kernel(&'a [T]),
}

impl<'a, T> GenericSlice<'a, T> {
    /// The number of elements.
    pub open spec fn length(&self) -> nat {
        match self {
            GenericSlice::User(_, s) => s.inner().len as nat,
            GenericSlice::Kernel(s) => s@.len(),
        }
    }

    /// Whether the address after the first `amt` elements fits in a machine word.
    pub open spec fn has_addr(&self, amt: nat) -> bool {
        match self {
            GenericSlice::User(_, s) => element_addr::<T>(s.inner().addr as nat, amt) <= u64::MAX,
            GenericSlice::Kernel(_) => true,
        }
    }

    /// A slice in the memory of a process.
    pub fn user(pt: &'a UserPageTable, s: &Validated<UserSlice<T>>) -> (r: Self)
        ensures
            r matches GenericSlice::User(table, slice) && *table == *pt && slice.inner().addr == s.inner().addr
                && slice.inner().len == s.inner().len,
    {
        GenericSlice::User(pt, Validated(UserSlice::from_raw_parts(s.addr(), s.len())))
    }

    /// Returns the number of elements.
    pub fn len(&self) -> (r: u64)
        ensures
            r == self.length(),
    {
        match self {
            GenericSlice::User(_, s) => s.len(),
            GenericSlice::Kernel(s) => s.len() as u64,
        }
    }

    /// Skips the first `amt` elements of the slice.
    pub fn skip(&self, amt: u64) -> (r: GenericSlice<'_, T>)
        requires
            amt <= self.length(),
            self.has_addr(amt as nat),
        ensures
            match (*self, r) {
                (GenericSlice::User(pt, s), GenericSlice::User(pt2, s2)) => {
                    &&& pt2 == pt
                    &&& s2.inner().addr == element_addr::<T>(s.inner().addr as nat, amt as nat)
                    &&& s2.inner().len == s.inner().len - amt
                },
                (GenericSlice::Kernel(s), GenericSlice::Kernel(s2)) => s2@ == s@.skip(amt as int),
                _ => false,
            },
    {
        match self {
            GenericSlice::User(pt, s) => GenericSlice::User(pt, s.skip(amt)),
            GenericSlice::Kernel(s) => GenericSlice::Kernel(
                vstd::slice::slice_subrange(s, amt as usize, s.len()),
            ),
        }
    }

    /// Takes the first `amt` elements of the slice.
    pub fn take(&self, amt: u64) -> (r: GenericSlice<'_, T>)
        requires
            amt <= self.length(),
        ensures
            match (*self, r) {
                (GenericSlice::User(pt, s), GenericSlice::User(pt2, s2)) => {
                    &&& pt2 == pt
                    &&& s2.inner().addr == s.inner().addr
                    &&& s2.inner().len == amt
                },
                (GenericSlice::Kernel(s), GenericSlice::Kernel(s2)) => s2@ == s@.take(amt as int),
                _ => false,
            },
    {
        match self {
            GenericSlice::User(pt, s) => GenericSlice::User(pt, s.take(amt)),
            GenericSlice::Kernel(s) => {
                assert(amt <= s.len());
                GenericSlice::Kernel(vstd::slice::slice_subrange(s, 0, amt as usize))
            },
        }
    }
}

/// A slice in the memory of a process or of the kernel, to be written to.
pub enum GenericMutSlice<'a, T> {
    User(&'a mut UserPageTable, Validated<UserMutSlice<T>>),
    Kernel(&'a mut [T]),
}

impl<'a, T> GenericMutSlice<'a, T> {
    /// The number of elements.
    pub open spec fn length(&self) -> nat {
        match self {
            GenericMutSlice::User(_, s) => s.inner().len as nat,
            GenericMutSlice::Kernel(s) => s@.len(),
        }
    }

    /// Whether the address after the first `amt` elements fits in a machine word.
    pub open spec fn has_addr(&self, amt: nat) -> bool {
        match self {
            GenericMutSlice::User(_, s) => element_addr::<T>(s.inner().addr as nat, amt) <= u64::MAX,
            GenericMutSlice::Kernel(_) => true,
        }
    }

    /// Returns the number of elements.
    pub fn len(&self) -> (r: u64)
        ensures
            r == self.length(),
    {
        match self {
            GenericMutSlice::User(_, s) => s.len(),
            GenericMutSlice::Kernel(s) => s.len() as u64,
        }
    }

    /// Skips the first `amt` elements of the slice.
    pub fn skip_mut(&mut self, amt: u64) -> (r: GenericMutSlice<'_, T>)
        requires
            amt <= old(self).length(),
            old(self).has_addr(amt as nat),
        ensures
            match (*old(self), r) {
                (GenericMutSlice::User(pt, s), GenericMutSlice::User(pt2, s2)) => {
                    &&& *pt2 == *pt
                    &&& s2.inner().addr == element_addr::<T>(s.inner().addr as nat, amt as nat)
                    &&& s2.inner().len == s.inner().len - amt
                    &&& *final(self) matches GenericMutSlice::User(pt3, s3)
                    &&& *pt3 == *final(pt2)
                    &&& s3 == s
                },
                (GenericMutSlice::Kernel(s), GenericMutSlice::Kernel(s2)) => {
                    &&& s2@ == s@.skip(amt as int)
                    &&& *final(self) matches GenericMutSlice::Kernel(s3)
                    &&& s3@ == s@.take(amt as int) + final(s2)@
                },
                _ => false,
            },
    {
        match self {
            GenericMutSlice::User(pt, s) => GenericMutSlice::User(pt, s.skip_mut(amt)),
            GenericMutSlice::Kernel(s) => {
                assert(amt <= s.len());
                let (_, rest) = s.split_at_mut(amt as usize);
                GenericMutSlice::Kernel(rest)
            },
        }
    }

    /// Takes the first `amt` elements of the slice.
    pub fn take_mut(&mut self, amt: u64) -> (r: GenericMutSlice<'_, T>)
        requires
            amt <= old(self).length(),
        ensures
            match (*old(self), r) {
                (GenericMutSlice::User(pt, s), GenericMutSlice::User(pt2, s2)) => {
                    &&& *pt2 == *pt
                    &&& s2.inner().addr == s.inner().addr
                    &&& s2.inner().len == amt
                    &&& *final(self) matches GenericMutSlice::User(pt3, s3)
                    &&& *pt3 == *final(pt2)
                    &&& s3 == s
                },
                (GenericMutSlice::Kernel(s), GenericMutSlice::Kernel(s2)) => {
                    &&& s2@ == s@.take(amt as int)
                    &&& *final(self) matches GenericMutSlice::Kernel(s3)
                    &&& s3@ == final(s2)@ + s@.skip(amt as int)
                },
                _ => false,
            },
    {
        match self {
            GenericMutSlice::User(pt, s) => GenericMutSlice::User(pt, s.take_mut(amt)),
            GenericMutSlice::Kernel(s) => {
                assert(amt <= s.len());
                let (first, _) = s.split_at_mut(amt as usize);
                GenericMutSlice::Kernel(first)
            },
        }
    }
}

/// A slice of slices in the memory of a process or of the kernel.
pub enum GenericSliceOfSlice<'a, T> {
    User(&'a UserPageTable, Validated<UserSlice<Validated<UserSlice<T>>>>),
    Kernel(&'a [&'a [T]]),
}

/// Bytes that a slice in the memory of a process takes up: its address and its
/// length.
pub const USER_SLICE_SIZE: usize = 16;

impl<'a, T: 'static> GenericSliceOfSlice<'a, T> {
    /// The number of slices.
    pub open spec fn length(&self) -> nat {
        match self {
            GenericSliceOfSlice::User(_, s) => s.inner().len as nat,
            GenericSliceOfSlice::Kernel(s) => s@.len(),
        }
    }

    /// Returns the number of slices.
    pub fn len(&self) -> (r: u64)
        ensures
            r == self.length(),
    {
        match self {
            GenericSliceOfSlice::User(_, s) => s.0.len(),
            GenericSliceOfSlice::Kernel(s) => {
                let slices: &[&[T]] = *s;
                slices.len() as u64
            },
        }
    }

    /// Where the `n`-th slice of a process stands in its memory.
    pub open spec fn slot_addr(s: UserSlice<Validated<UserSlice<T>>>, n: nat) -> nat {
        element_addr::<Validated<UserSlice<T>>>(s.addr as nat, n)
    }

    /// Returns the `n`-th slice. One of a process is read from its memory, which
    /// must have been checked.
    pub fn nth(&self, n: u64, manager: &PageManager) -> (r: GenericSlice<'_, T>)
        requires
            n < self.length(),
            *self matches GenericSliceOfSlice::User(pt, s) ==> {
                let start = Self::slot_addr(s.inner(), n as nat);
                &&& manager.wf()
                &&& pt.pt.wf(manager@)
                &&& start + USER_SLICE_SIZE <= VA_MAX
                &&& pt.readable(manager@, start, start + USER_SLICE_SIZE as nat)
            },
        ensures
            match (*self, r) {
                (GenericSliceOfSlice::User(pt, s), GenericSlice::User(pt2, s2)) => {
                    let start = Self::slot_addr(s.inner(), n as nat);
                    let bytes = Seq::new(
                        USER_SLICE_SIZE as nat,
                        |i: int| pt.byte_at(manager@, (start + i) as nat),
                    );
                    &&& pt2 == pt
                    &&& s2.inner().addr == le_number(bytes.subrange(0, 8))
                    &&& s2.inner().len == le_number(bytes.subrange(8, 16))
                },
                (GenericSliceOfSlice::Kernel(s), GenericSlice::Kernel(s2)) => s2 == s@[n as int],
                _ => false,
            },
    {
        match self {
            GenericSliceOfSlice::User(pt, s) => {
                let start: VirtAddr = VirtAddr(s.nth(n).addr());
                let bytes: Vec<u8> = pt.copy_u2k_bytes(start, USER_SLICE_SIZE, manager);
                let addr: u64 = read_le_u64(bytes.as_slice(), 0);
                let len: u64 = read_le_u64(bytes.as_slice(), 8);
                GenericSlice::User(pt, Validated(UserSlice::from_raw_parts(addr, len)))
            },
            GenericSliceOfSlice::Kernel(s) => {
                let slices: &[&[T]] = *s;
                assert(n < slices.len());
                GenericSlice::Kernel(slices[n as usize])
            },
        }
    }
}

/// Something that is a slice of slices.
pub trait AsGenericSliceOfSlice<T> {
    /// The number of slices.
    spec fn length(&self) -> nat;

    /// Returns the number of slices.
    fn len(&self) -> (r: u64)
        ensures
            r == self.length(),
    ;

    /// Returns the slices, for the process that `pt` belongs to.
    fn as_generic_slice_of_slice<'a>(&'a self, pt: &'a UserPageTable) -> (r: GenericSliceOfSlice<
        'a,
        T,
    >)
        ensures
            r.length() == self.length(),
            r matches GenericSliceOfSlice::User(table, _) ==> *table == *pt,
    ;
}

impl<T> AsGenericSliceOfSlice<T> for Validated<UserSlice<Validated<UserSlice<T>>>> {
    open spec fn length(&self) -> nat {
        self.inner().len as nat
    }

    fn len(&self) -> (r: u64) {
        self.0.len()
    }

    fn as_generic_slice_of_slice<'a>(&'a self, pt: &'a UserPageTable) -> (r: GenericSliceOfSlice<
        'a,
        T,
    >)
        ensures
            r matches GenericSliceOfSlice::User(_, s) && s.inner().addr == self.inner().addr,
    {
        GenericSliceOfSlice::User(
            pt,
            Validated(UserSlice::from_raw_parts(self.0.addr(), self.0.len())),
        )
    }
}

impl<'b, T> AsGenericSliceOfSlice<T> for &'b [&'b [T]] {
    open spec fn length(&self) -> nat {
        self@.len()
    }

    fn len(&self) -> (r: u64) {
        let s: &[&[T]] = *self;
        s.len() as u64
    }

    fn as_generic_slice_of_slice<'a>(&'a self, _pt: &'a UserPageTable) -> (r: GenericSliceOfSlice<
        'a,
        T,
    >)
        ensures
            r matches GenericSliceOfSlice::Kernel(s) && s@ == self@,
    {
        GenericSliceOfSlice::Kernel(self)
    }
}

/// The addresses of something in the memory of a process are those from where it begins up
/// to where it ends, if all of them are virtual addresses.
pub proof fn law_va_range(addr: u64, size: nat)
    ensures
        va_range_of(addr, size) is Ok <==> addr + size <= VA_MAX,
        va_range_of(addr, size) matches Ok(range) ==> range.start.0 == addr && range.end.0
            - range.start.0 == size,
{
}

/// What is to be read must be readable for the process, and what is to be written writable;
/// either must be accessible from user mode, and nothing else is asked.
pub proof fn law_needs<T>(page: PtEntryFlags)
    ensures
        page.has(<UserRef<T> as Validate>::needs()) <==> page.u && page.r,
        page.has(<UserSlice<T> as Validate>::needs()) <==> page.u && page.r,
        page.has(<UserMutRef<T> as Validate>::needs()) <==> page.u && page.w,
        page.has(<UserMutSlice<T> as Validate>::needs()) <==> page.u && page.w,
{
}

} // verus!
