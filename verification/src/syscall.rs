//! The system call interface: the types that user programs and the kernel
//! exchange.
use crate::types::ProcId;
use core::marker::PhantomData;
use vstd::layout::{spec_align_of_val, spec_size_of_val};
use vstd::prelude::*;
use vstd::string::StringSliceAdditionalSpecFns;

verus! {

/// Address of the page that the kernel shares with a process for reading.
pub const USYSCALL_ADDR: u64 = 0x2F_FFFF_F000;

/// What the kernel shows to a process without a system call.
#[derive(Debug, Clone, Copy, PartialEq, Eq, Structural)]
pub struct USyscallData {
    pub pid: ProcId,
}

/// What is known of a file.
#[derive(Debug, Clone, Copy, PartialEq, Eq)]
pub struct Stat {
    /// File system's disk device
    pub dev: u32,
    /// Inode number
    pub ino: u32,
    /// Type of file
    pub ty: u16,
    /// Number of links to file
    pub nlink: u16,
    pub padding: [u8; 4],
    /// Size of file in bytes
    pub size: u64,
}

/// Which process to wait for.
#[derive(Debug, Clone, Copy, PartialEq, Eq, Structural)]
pub enum WaitTarget {
    AnyProcess,
    Process(ProcId),
}

/// How much memory there is.
#[derive(Debug, Clone, Copy, PartialEq, Eq, Structural)]
pub struct MemoryInfo {
    pub free_pages: u64,
    pub total_pages: u64,
    pub page_size: u64,
}

/// What is known of the system.
#[derive(Debug, Clone, Copy, PartialEq, Eq, Structural)]
pub struct SystemInfo {
    pub memory: MemoryInfo,
}

/// The address of a value, as [`core::ptr::from_ref`] followed by `addr` gives it.
///
/// Where a value lies in memory is the machine's choice. What every reference
/// guarantees is that its address is not null and is aligned for its target, and that
/// the value ends within the address space.
#[verifier::external_body]
fn address_of<T: ?Sized>(r: &T) -> (addr: u64)
    ensures
        addr != 0,
        addr as nat % spec_align_of_val(r) == 0,
        addr + spec_size_of_val(r) <= u64::MAX,
{
    core::ptr::from_ref(r).addr() as u64
}

/// Size of a type in bytes, as a machine word.
fn size_of_type<T>() -> (r: u64)
    ensures
        r as nat == vstd::layout::size_of::<T>(),
{
    core::mem::size_of::<T>() as u64
}

/// A reference to a user-space object.
pub struct UserRef<T: ?Sized + 'static> {
    pub addr: u64,
    pub phantom: PhantomData<&'static T>,
}

impl<T: ?Sized> UserRef<T> {
    /// Creates a `UserRef` to the code of a function, given its entry address.
    pub fn from_fn(entry: u64) -> (r: Self)
        ensures
            r.addr == entry,
    {
        UserRef { addr: entry, phantom: PhantomData }
    }

    /// Creates a new `UserRef` from a reference.
    pub fn new(r: &T) -> (u: Self)
        ensures
            u.addr != 0,
            u.addr as nat % spec_align_of_val(r) == 0,
            u.addr + spec_size_of_val(r) <= u64::MAX,
    {
        UserRef { addr: address_of(r), phantom: PhantomData }
    }

    /// Returns the address of the user reference.
    #[must_use]
    pub fn addr(&self) -> (r: u64)
        ensures
            r == self.addr,
    {
        self.addr
    }
}

impl<T> UserRef<T> {
    /// Returns the size of the referenced type.
    #[must_use]
    pub fn size(&self) -> (r: u64)
        ensures
            r as nat == vstd::layout::size_of::<T>(),
    {
        size_of_type::<T>()
    }

    /// Converts the reference into a byte slice.
    #[must_use]
    pub fn as_bytes(&self) -> (r: UserSlice<u8>)
        ensures
            r.addr == self.addr,
            r.len as nat == vstd::layout::size_of::<T>(),
    {
        UserSlice { addr: self.addr, len: size_of_type::<T>(), phantom: PhantomData }
    }
}

/// A mutable reference to a user-space object.
pub struct UserMutRef<T: ?Sized + 'static> {
    pub addr: u64,
    pub phantom: PhantomData<&'static T>,
}

impl<T: ?Sized> UserMutRef<T> {
    /// Creates a new `UserMutRef` from a mutable reference.
    pub fn new(r: &mut T) -> (u: Self)
        ensures
            u.addr != 0,
            u.addr as nat % spec_align_of_val(old(r)) == 0,
            u.addr + spec_size_of_val(old(r)) <= u64::MAX,
            &*final(r) == &*old(r),
    {
        UserMutRef { addr: address_of(&*r), phantom: PhantomData }
    }

    /// Returns the address of the mutable user reference.
    #[must_use]
    pub fn addr(&self) -> (r: u64)
        ensures
            r == self.addr,
    {
        self.addr
    }
}

impl<T> UserMutRef<T> {
    /// Returns the size of the referenced type.
    #[must_use]
    pub fn size(&self) -> (r: u64)
        ensures
            r as nat == vstd::layout::size_of::<T>(),
    {
        size_of_type::<T>()
    }

    /// Converts the mutable reference into a mutable byte slice.
    #[must_use]
    pub fn as_bytes_mut(&mut self) -> (r: UserMutSlice<u8>)
        ensures
            r.addr == old(self).addr,
            r.len as nat == vstd::layout::size_of::<T>(),
            *final(self) == *old(self),
    {
        UserMutSlice { addr: self.addr, len: size_of_type::<T>(), phantom: PhantomData }
    }
}

/// A slice of user-space objects.
#[derive(PartialEq, Eq)]
pub struct UserSlice<T> {
    pub addr: u64,
    pub len: u64,
    pub phantom: PhantomData<T>,
}

impl<T> Copy for UserSlice<T> {

}

impl<T> Clone for UserSlice<T> {
    fn clone(&self) -> (r: Self)
        ensures
            r.addr == self.addr,
            r.len == self.len,
    {
        UserSlice { addr: self.addr, len: self.len, phantom: PhantomData }
    }
}

/// Size in bytes of `len` values of type `T`.
pub open spec fn array_size<T>(len: nat) -> nat {
    vstd::layout::size_of::<T>() * len
}

/// Address of the `n`-th of the values of type `T` that start at `addr`.
pub open spec fn element_addr<T>(addr: nat, n: nat) -> nat {
    addr + array_size::<T>(n)
}

/// The first values of an array take up no more than all of them.
proof fn lemma_elements_fit<T>(len: nat)
    ensures
        array_size::<T>(len) == len * vstd::layout::size_of::<T>(),
        forall|n: nat| n <= len ==> #[trigger] array_size::<T>(n) <= array_size::<T>(len),
{
    let size = vstd::layout::size_of::<T>();
    assert(size * len == len * size) by (nonlinear_arith);
    assert forall|n: nat| n <= len implies #[trigger] array_size::<T>(n) <= array_size::<T>(len) by {
        assert(size * n <= size * len) by (nonlinear_arith)
            requires
                n <= len,
        ;
    }
}

/// Values lie one behind the other, as far apart as one is large: going on by some and then
/// by others comes to the same as going on by all of them at once.
pub proof fn law_elements_follow<T>(addr: nat, m: nat, n: nat)
    ensures
        element_addr::<T>(addr, 0) == addr,
        element_addr::<T>(addr, 1) == addr + vstd::layout::size_of::<T>(),
        element_addr::<T>(element_addr::<T>(addr, m), n) == element_addr::<T>(addr, m + n),
{
    let size = vstd::layout::size_of::<T>();
    assert(size * m + size * n == size * (m + n)) by (nonlinear_arith);
    assert(size * 0 == 0 && size * 1 == size) by (nonlinear_arith);
}

/// Whether `len` values of type `T` at `addr` can be seen as values of type `U`.
pub open spec fn can_cast<T, U>(addr: nat, len: nat) -> bool {
    &&& vstd::layout::size_of::<U>() != 0
    &&& vstd::layout::align_of::<U>() != 0
    &&& addr % vstd::layout::align_of::<U>() == 0
    &&& array_size::<T>(len) <= u64::MAX
    &&& array_size::<T>(len) % vstd::layout::size_of::<U>() == 0
}

/// Size in bytes of `len` values of type `T`, if it fits in a machine word.
fn checked_array_size<T>(len: u64) -> (r: Option<u64>)
    ensures
        r matches Some(size) ==> size == array_size::<T>(len as nat),
        r is Some <==> array_size::<T>(len as nat) <= u64::MAX,
{
    size_of_type::<T>().checked_mul(len)
}

/// Address of the `n`-th of the values of type `T` that start at `addr`.
fn offset_addr<T>(addr: u64, n: u64) -> (r: u64)
    requires
        element_addr::<T>(addr as nat, n as nat) <= u64::MAX,
    ensures
        r == element_addr::<T>(addr as nat, n as nat),
{
    let size: u64 = size_of_type::<T>();
    assert(size * n == array_size::<T>(n as nat));
    addr + size * n
}

/// Whether `len` values of type `T` are `r` values of type `U`.
pub open spec fn cast_to<T, U>(len: nat, r: nat) -> bool {
    r == array_size::<T>(len) / vstd::layout::size_of::<U>()
}

/// Values that are read as values of another type are the same bytes: they end where they
/// ended, and none is left over.
pub proof fn law_cast<T, U>(addr: nat, len: nat, r: nat)
    requires
        can_cast::<T, U>(addr, len),
        cast_to::<T, U>(len, r),
    ensures
        r * vstd::layout::size_of::<U>() == len * vstd::layout::size_of::<T>(),
        element_addr::<U>(addr, r) == element_addr::<T>(addr, len),
        addr % vstd::layout::align_of::<U>() == 0,
{
    let size = array_size::<T>(len) as int;
    let unit = vstd::layout::size_of::<U>() as int;
    vstd::arithmetic::div_mod::lemma_fundamental_div_mod(size, unit);
    assert(unit * r == r * unit) by (nonlinear_arith);
    lemma_elements_fit::<T>(len);
}

/// How many values of type `U` the `len` values of type `T` at `addr` are.
fn cast_len<T, U>(addr: u64, len: u64) -> (r: u64)
    requires
        can_cast::<T, U>(addr as nat, len as nat),
    ensures
        r == array_size::<T>(len as nat) / vstd::layout::size_of::<U>(),
{
    let size: u64 = size_of_type::<T>();
    assert(size * len == array_size::<T>(len as nat));
    let unit: u64 = size_of_type::<U>();
    (size * len) / unit
}

impl<T> UserSlice<T> {
    /// Creates a new `UserSlice` from a slice.
    #[must_use]
    pub fn new(s: &[T]) -> (r: Self)
        ensures
            r.len == s@.len(),
            r.addr != 0,
            r.addr as nat % vstd::layout::align_of::<T>() == 0,
            element_addr::<T>(r.addr as nat, r.len as nat) <= u64::MAX,
            forall|n: nat|
                n <= r.len ==> #[trigger] element_addr::<T>(r.addr as nat, n) <= u64::MAX,
    {
        proof {
            vstd::layout::layout_of_slices(s);
            lemma_elements_fit::<T>(s@.len());
        }
        UserSlice { addr: address_of(s), len: s.len() as u64, phantom: PhantomData }
    }

    /// Creates a `UserSlice` from raw parts.
    ///
    /// The caller vouches for the provided address and length.
    #[must_use]
    pub fn from_raw_parts(addr: u64, len: u64) -> (r: Self)
        ensures
            r.addr == addr,
            r.len == len,
    {
        UserSlice { addr, len, phantom: PhantomData }
    }

    /// Returns the address of the slice.
    #[must_use]
    pub fn addr(&self) -> (r: u64)
        ensures
            r == self.addr,
    {
        self.addr
    }

    /// Returns the length of the slice.
    #[must_use]
    pub fn len(&self) -> (r: u64)
        ensures
            r == self.len,
    {
        self.len
    }

    /// Returns the size of the slice in bytes, if it fits in a machine word.
    #[must_use]
    pub fn size(&self) -> (r: Option<u64>)
        ensures
            r matches Some(size) ==> size == array_size::<T>(self.len as nat),
            r is Some <==> array_size::<T>(self.len as nat) <= u64::MAX,
    {
        checked_array_size::<T>(self.len)
    }

    /// Casts the slice to a slice of another type.
    ///
    /// The address must be aligned for the other type, and the size in bytes a
    /// multiple of its size.
    #[must_use]
    pub fn cast<U>(&self) -> (r: UserSlice<U>)
        requires
            can_cast::<T, U>(self.addr as nat, self.len as nat),
        ensures
            r.addr == self.addr,
            r.len == array_size::<T>(self.len as nat) / vstd::layout::size_of::<U>(),
            cast_to::<T, U>(self.len as nat, r.len as nat),
    {
        UserSlice { addr: self.addr, len: cast_len::<T, U>(self.addr, self.len), phantom: PhantomData }
    }

    /// Returns a reference to the nth element in the slice.
    #[must_use]
    pub fn nth(&self, n: u64) -> (r: UserRef<T>)
        requires
            n < self.len,
            element_addr::<T>(self.addr as nat, n as nat) <= u64::MAX,
        ensures
            r.addr == element_addr::<T>(self.addr as nat, n as nat),
    {
        UserRef { addr: offset_addr::<T>(self.addr, n), phantom: PhantomData }
    }

    /// Skips the first `amt` elements of the slice.
    #[must_use]
    pub fn skip(&self, amt: u64) -> (r: Self)
        requires
            amt <= self.len,
            element_addr::<T>(self.addr as nat, amt as nat) <= u64::MAX,
        ensures
            r.addr == element_addr::<T>(self.addr as nat, amt as nat),
            r.len == self.len - amt,
    {
        UserSlice { addr: offset_addr::<T>(self.addr, amt), len: self.len - amt, phantom: PhantomData }
    }

    /// Takes the first `amt` elements of the slice.
    #[must_use]
    pub fn take(&self, amt: u64) -> (r: Self)
        requires
            amt <= self.len,
        ensures
            r.addr == self.addr,
            r.len == amt,
    {
        UserSlice { addr: self.addr, len: amt, phantom: PhantomData }
    }
}

/// A mutable slice of user-space objects.
#[derive(PartialEq, Eq)]
pub struct UserMutSlice<T> {
    pub addr: u64,
    pub len: u64,
    pub phantom: PhantomData<T>,
}

impl<T> UserMutSlice<T> {
    /// Creates a new `UserMutSlice` from a mutable slice.
    #[must_use]
    pub fn new(s: &mut [T]) -> (r: Self)
        ensures
            r.len == old(s)@.len(),
            r.addr != 0,
            r.addr as nat % vstd::layout::align_of::<T>() == 0,
            element_addr::<T>(r.addr as nat, r.len as nat) <= u64::MAX,
            forall|n: nat|
                n <= r.len ==> #[trigger] element_addr::<T>(r.addr as nat, n) <= u64::MAX,
            final(s)@ == old(s)@,
    {
        proof {
            vstd::layout::layout_of_slices(&*s);
            lemma_elements_fit::<T>(s@.len());
        }
        UserMutSlice { addr: address_of(&*s), len: s.len() as u64, phantom: PhantomData }
    }

    /// Creates a `UserMutSlice` from raw parts.
    ///
    /// The caller vouches for the provided address and length.
    #[must_use]
    pub fn from_raw_parts(addr: u64, len: u64) -> (r: Self)
        ensures
            r.addr == addr,
            r.len == len,
    {
        UserMutSlice { addr, len, phantom: PhantomData }
    }

    /// Returns the address of the mutable slice.
    #[must_use]
    pub fn addr(&self) -> (r: u64)
        ensures
            r == self.addr,
    {
        self.addr
    }

    /// Returns the length of the mutable slice.
    #[must_use]
    pub fn len(&self) -> (r: u64)
        ensures
            r == self.len,
    {
        self.len
    }

    /// Returns the size of the mutable slice in bytes, if it fits in a machine word.
    #[must_use]
    pub fn size(&self) -> (r: Option<u64>)
        ensures
            r matches Some(size) ==> size == array_size::<T>(self.len as nat),
            r is Some <==> array_size::<T>(self.len as nat) <= u64::MAX,
    {
        checked_array_size::<T>(self.len)
    }

    /// Casts the mutable slice to a mutable slice of another type.
    ///
    /// The address must be aligned for the other type, and the size in bytes a
    /// multiple of its size.
    #[must_use]
    pub fn cast_mut<U>(&mut self) -> (r: UserMutSlice<U>)
        requires
            can_cast::<T, U>(old(self).addr as nat, old(self).len as nat),
        ensures
            r.addr == old(self).addr,
            r.len == array_size::<T>(old(self).len as nat) / vstd::layout::size_of::<U>(),
            cast_to::<T, U>(old(self).len as nat, r.len as nat),
            *final(self) == *old(self),
    {
        UserMutSlice { addr: self.addr, len: cast_len::<T, U>(self.addr, self.len), phantom: PhantomData }
    }

    /// Returns a mutable reference to the nth element in the mutable slice.
    #[must_use]
    pub fn nth_mut(&mut self, n: u64) -> (r: UserMutRef<T>)
        requires
            n < old(self).len,
            element_addr::<T>(old(self).addr as nat, n as nat) <= u64::MAX,
        ensures
            r.addr == element_addr::<T>(old(self).addr as nat, n as nat),
            *final(self) == *old(self),
    {
        UserMutRef { addr: offset_addr::<T>(self.addr, n), phantom: PhantomData }
    }

    /// Skips the first `amt` elements of the mutable slice.
    #[must_use]
    pub fn skip_mut(&mut self, amt: u64) -> (r: Self)
        requires
            amt <= old(self).len,
            element_addr::<T>(old(self).addr as nat, amt as nat) <= u64::MAX,
        ensures
            r.addr == element_addr::<T>(old(self).addr as nat, amt as nat),
            r.len == old(self).len - amt,
            *final(self) == *old(self),
    {
        UserMutSlice { addr: offset_addr::<T>(self.addr, amt), len: self.len - amt, phantom: PhantomData }
    }

    /// Takes the first `amt` elements of the mutable slice.
    #[must_use]
    pub fn take_mut(&mut self, amt: u64) -> (r: Self)
        requires
            amt <= old(self).len,
        ensures
            r.addr == old(self).addr,
            r.len == amt,
            *final(self) == *old(self),
    {
        UserMutSlice { addr: self.addr, len: amt, phantom: PhantomData }
    }
}

/// How a file is to be opened. Without any flag, it is to be read.
#[derive(Debug, Clone, Copy, PartialEq, Eq, Structural)]
pub struct OpenFlags {
    pub write_only: bool,
    pub read_write: bool,
    /// Make the file if there is none.
    pub create: bool,
    /// Cut the file down to nothing.
    pub trunc: bool,
}

/// What a flag adds to a number.
pub open spec fn flag_part(on: bool, value: nat) -> nat {
    if on {
        value
    } else {
        0
    }
}

fn flag_number(on: bool, value: u64) -> (r: u64)
    ensures
        r == flag_part(on, value as nat),
{
    if on {
        value
    } else {
        0
    }
}

impl OpenFlags {
    /// The number for the flags.
    pub open spec fn number(self) -> nat {
        flag_part(self.write_only, 0x001) + flag_part(self.read_write, 0x002) + flag_part(
            self.create,
            0x200,
        ) + flag_part(self.trunc, 0x400)
    }

    /// Returns the number for the flags.
    pub fn bits(&self) -> (r: u64)
        ensures
            r == self.number(),
    {
        flag_number(self.write_only, 0x001) + flag_number(self.read_write, 0x002) + flag_number(
            self.create,
            0x200,
        ) + flag_number(self.trunc, 0x400)
    }

    /// The flags that have a number, if there are such.
    pub fn from_bits(bits: u64) -> (r: Option<Self>)
        ensures
            r matches Some(flags) ==> flags.number() == bits,
            r is None ==> forall|flags: Self| #[trigger] flags.number() != bits,
    {
        let flags = OpenFlags {
            write_only: bits % 2 == 1,
            read_write: bits / 2 % 2 == 1,
            create: bits / 0x200 % 2 == 1,
            trunc: bits / 0x400 % 2 == 1,
        };
        if flags.bits() == bits {
            Some(flags)
        } else {
            proof {
                assert forall|other: Self| #[trigger] other.number() != bits by {
                    if other.number() == bits {
                        law_open_flag_bits(other, bits);
                        assert(other == flags);
                    }
                }
            }
            None
        }
    }
}

/// Which flags a number stands for.
pub proof fn law_open_flag_bits(flags: OpenFlags, bits: u64)
    requires
        flags.number() == bits,
    ensures
        flags.write_only == (bits % 2 == 1),
        flags.read_write == (bits / 2 % 2 == 1),
        flags.create == (bits / 0x200 % 2 == 1),
        flags.trunc == (bits / 0x400 % 2 == 1),
{
}

/// Different flags have different numbers.
pub proof fn law_open_flags(a: OpenFlags, b: OpenFlags)
    requires
        a.number() == b.number(),
    ensures
        a == b,
{
    law_open_flag_bits(a, a.number() as u64);
    law_open_flag_bits(b, a.number() as u64);
}

/// The type of a file.
#[derive(Debug, Clone, Copy, PartialEq, Eq, Structural, PartialOrd, Ord)]
pub enum StatType {
    Dir,
    File,
    Dev,
}

impl StatType {
    /// The number for a type.
    pub open spec fn number(self) -> u16 {
        match self {
            StatType::Dir => 1,
            StatType::File => 2,
            StatType::Dev => 3,
        }
    }

    /// Returns the number for a type.
    pub fn repr(self) -> (r: u16)
        ensures
            r == self.number(),
    {
        match self {
            StatType::Dir => 1,
            StatType::File => 2,
            StatType::Dev => 3,
        }
    }

    /// The type with a number, if there is one.
    pub fn from_repr(repr: u16) -> (r: Option<Self>)
        ensures
            r matches Some(ty) ==> ty.number() == repr,
            r is None ==> repr == 0 || repr > 3,
    {
        match repr {
            1 => Some(StatType::Dir),
            2 => Some(StatType::File),
            3 => Some(StatType::Dev),
            _ => None,
        }
    }
}

/// The address of a socket: an IP address and a port.
#[derive(Debug, Clone, Copy, PartialEq, Eq, Structural)]
pub struct SocketAddrV4 {
    /// The four numbers of the address, the first one in the highest byte.
    pub ip: u32,
    pub port: u16,
}

/// The address of a socket as it is handed to the kernel: the lowest byte comes
/// first.
#[derive(Debug, Clone, Copy, PartialEq, Eq)]
pub struct SocketAddrV4Pod {
    pub addr: [u8; 4],
    pub port: [u8; 2],
}

impl SocketAddrV4Pod {
    /// The address that the bytes stand for.
    pub open spec fn addr_of(self) -> SocketAddrV4 {
        SocketAddrV4 {
            ip: (self.addr@[0] + 0x100 * self.addr@[1] + 0x1_0000 * self.addr@[2] + 0x100_0000
                * self.addr@[3]) as u32,
            port: (self.port@[0] + 0x100 * self.port@[1]) as u16,
        }
    }

    /// Makes the bytes for an address.
    pub fn from_addr(value: SocketAddrV4) -> (r: Self)
        ensures
            r.addr_of() == value,
    {
        let ip: u32 = value.ip;
        let port: u16 = value.port;
        let addr: [u8; 4] = [
            (ip % 0x100) as u8,
            (ip / 0x100 % 0x100) as u8,
            (ip / 0x1_0000 % 0x100) as u8,
            (ip / 0x100_0000) as u8,
        ];
        let port_bytes: [u8; 2] = [(port % 0x100) as u8, (port / 0x100) as u8];
        SocketAddrV4Pod { addr, port: port_bytes }
    }

    /// Makes out the address that the bytes stand for.
    pub fn to_addr(&self) -> (r: SocketAddrV4)
        ensures
            r == self.addr_of(),
    {
        SocketAddrV4 {
            ip: self.addr[0] as u32 + 0x100 * (self.addr[1] as u32) + 0x1_0000 * (
            self.addr[2] as u32) + 0x100_0000 * (self.addr[3] as u32),
            port: self.port[0] as u16 + 0x100 * (self.port[1] as u16),
        }
    }
}

/// Different bytes stand for different addresses.
pub proof fn law_socket_addr(a: SocketAddrV4Pod, b: SocketAddrV4Pod)
    requires
        a.addr_of() == b.addr_of(),
    ensures
        a.addr@ == b.addr@,
        a.port@ == b.port@,
{
    assert(a.addr@[3] == b.addr@[3] && a.addr@[2] == b.addr@[2] && a.addr@[1] == b.addr@[1]
        && a.addr@[0] == b.addr@[0]);
    assert(a.port@[1] == b.port@[1] && a.port@[0] == b.port@[0]);
    assert(a.addr@ =~= b.addr@);
    assert(a.port@ =~= b.port@);
}

/// The system calls.
#[derive(Debug, Clone, Copy, PartialEq, Eq, Structural)]
pub enum SyscallCode {
    Fork,
    Exit,
    Wait,
    Pipe,
    Read,
    Kill,
    Exec,
    Fstat,
    Chdir,
    Dup,
    Sbrk,
    Sleep,
    Open,
    Write,
    Mknod,
    Unlink,
    Link,
    Mkdir,
    Close,
    AlarmSet,
    AlarmClear,
    SignalReturn,
    Bind,
    Unbind,
    Recv,
    Send,
    GetSystemInfo,
    Reboot,
    Halt,
    Abort,
    Trace,
    DumpKernelPageTable,
    DumpUserPageTable,
}

/// How many system calls there are.
pub const SYSCALLS: u64 = 33;

impl SyscallCode {
    /// The number of a system call.
    pub open spec fn number(self) -> u64 {
        match self {
            SyscallCode::Fork => 1,
            SyscallCode::Exit => 2,
            SyscallCode::Wait => 3,
            SyscallCode::Pipe => 4,
            SyscallCode::Read => 5,
            SyscallCode::Kill => 6,
            SyscallCode::Exec => 7,
            SyscallCode::Fstat => 8,
            SyscallCode::Chdir => 9,
            SyscallCode::Dup => 10,
            SyscallCode::Sbrk => 11,
            SyscallCode::Sleep => 12,
            SyscallCode::Open => 13,
            SyscallCode::Write => 14,
            SyscallCode::Mknod => 15,
            SyscallCode::Unlink => 16,
            SyscallCode::Link => 17,
            SyscallCode::Mkdir => 18,
            SyscallCode::Close => 19,
            SyscallCode::AlarmSet => 20,
            SyscallCode::AlarmClear => 21,
            SyscallCode::SignalReturn => 22,
            SyscallCode::Bind => 23,
            SyscallCode::Unbind => 24,
            SyscallCode::Recv => 25,
            SyscallCode::Send => 26,
            SyscallCode::GetSystemInfo => 27,
            SyscallCode::Reboot => 28,
            SyscallCode::Halt => 29,
            SyscallCode::Abort => 30,
            SyscallCode::Trace => 31,
            SyscallCode::DumpKernelPageTable => 32,
            SyscallCode::DumpUserPageTable => 33,
        }
    }

    /// Returns the number of a system call.
    pub fn code(self) -> (r: u64)
        ensures
            r == self.number(),
            1 <= r <= SYSCALLS,
    {
        match self {
            SyscallCode::Fork => 1,
            SyscallCode::Exit => 2,
            SyscallCode::Wait => 3,
            SyscallCode::Pipe => 4,
            SyscallCode::Read => 5,
            SyscallCode::Kill => 6,
            SyscallCode::Exec => 7,
            SyscallCode::Fstat => 8,
            SyscallCode::Chdir => 9,
            SyscallCode::Dup => 10,
            SyscallCode::Sbrk => 11,
            SyscallCode::Sleep => 12,
            SyscallCode::Open => 13,
            SyscallCode::Write => 14,
            SyscallCode::Mknod => 15,
            SyscallCode::Unlink => 16,
            SyscallCode::Link => 17,
            SyscallCode::Mkdir => 18,
            SyscallCode::Close => 19,
            SyscallCode::AlarmSet => 20,
            SyscallCode::AlarmClear => 21,
            SyscallCode::SignalReturn => 22,
            SyscallCode::Bind => 23,
            SyscallCode::Unbind => 24,
            SyscallCode::Recv => 25,
            SyscallCode::Send => 26,
            SyscallCode::GetSystemInfo => 27,
            SyscallCode::Reboot => 28,
            SyscallCode::Halt => 29,
            SyscallCode::Abort => 30,
            SyscallCode::Trace => 31,
            SyscallCode::DumpKernelPageTable => 32,
            SyscallCode::DumpUserPageTable => 33,
        }
    }

    /// The system call with a number, if there is one.
    pub fn from_repr(repr: u64) -> (r: Option<Self>)
        ensures
            r == Self::numbered(repr),
            r is Some <==> 1 <= repr <= SYSCALLS,
            r matches Some(code) ==> code.number() == repr,
    {
        match repr {
            1 => Some(SyscallCode::Fork),
            2 => Some(SyscallCode::Exit),
            3 => Some(SyscallCode::Wait),
            4 => Some(SyscallCode::Pipe),
            5 => Some(SyscallCode::Read),
            6 => Some(SyscallCode::Kill),
            7 => Some(SyscallCode::Exec),
            8 => Some(SyscallCode::Fstat),
            9 => Some(SyscallCode::Chdir),
            10 => Some(SyscallCode::Dup),
            11 => Some(SyscallCode::Sbrk),
            12 => Some(SyscallCode::Sleep),
            13 => Some(SyscallCode::Open),
            14 => Some(SyscallCode::Write),
            15 => Some(SyscallCode::Mknod),
            16 => Some(SyscallCode::Unlink),
            17 => Some(SyscallCode::Link),
            18 => Some(SyscallCode::Mkdir),
            19 => Some(SyscallCode::Close),
            20 => Some(SyscallCode::AlarmSet),
            21 => Some(SyscallCode::AlarmClear),
            22 => Some(SyscallCode::SignalReturn),
            23 => Some(SyscallCode::Bind),
            24 => Some(SyscallCode::Unbind),
            25 => Some(SyscallCode::Recv),
            26 => Some(SyscallCode::Send),
            27 => Some(SyscallCode::GetSystemInfo),
            28 => Some(SyscallCode::Reboot),
            29 => Some(SyscallCode::Halt),
            30 => Some(SyscallCode::Abort),
            31 => Some(SyscallCode::Trace),
            32 => Some(SyscallCode::DumpKernelPageTable),
            33 => Some(SyscallCode::DumpUserPageTable),
            _ => None,
        }
    }

    /// The system call with a number, if there is one.
    pub open spec fn numbered(repr: u64) -> Option<Self> {
        match repr {
            1 => Some(SyscallCode::Fork),
            2 => Some(SyscallCode::Exit),
            3 => Some(SyscallCode::Wait),
            4 => Some(SyscallCode::Pipe),
            5 => Some(SyscallCode::Read),
            6 => Some(SyscallCode::Kill),
            7 => Some(SyscallCode::Exec),
            8 => Some(SyscallCode::Fstat),
            9 => Some(SyscallCode::Chdir),
            10 => Some(SyscallCode::Dup),
            11 => Some(SyscallCode::Sbrk),
            12 => Some(SyscallCode::Sleep),
            13 => Some(SyscallCode::Open),
            14 => Some(SyscallCode::Write),
            15 => Some(SyscallCode::Mknod),
            16 => Some(SyscallCode::Unlink),
            17 => Some(SyscallCode::Link),
            18 => Some(SyscallCode::Mkdir),
            19 => Some(SyscallCode::Close),
            20 => Some(SyscallCode::AlarmSet),
            21 => Some(SyscallCode::AlarmClear),
            22 => Some(SyscallCode::SignalReturn),
            23 => Some(SyscallCode::Bind),
            24 => Some(SyscallCode::Unbind),
            25 => Some(SyscallCode::Recv),
            26 => Some(SyscallCode::Send),
            27 => Some(SyscallCode::GetSystemInfo),
            28 => Some(SyscallCode::Reboot),
            29 => Some(SyscallCode::Halt),
            30 => Some(SyscallCode::Abort),
            31 => Some(SyscallCode::Trace),
            32 => Some(SyscallCode::DumpKernelPageTable),
            33 => Some(SyscallCode::DumpUserPageTable),
            _ => None,
        }
    }

    /// The name of a system call, in bytes.
    pub open spec fn name_bytes(self) -> Seq<u8> {
        match self {
            SyscallCode::Fork => "fork".spec_bytes(),
            SyscallCode::Exit => "exit".spec_bytes(),
            SyscallCode::Wait => "wait".spec_bytes(),
            SyscallCode::Pipe => "pipe".spec_bytes(),
            SyscallCode::Read => "read".spec_bytes(),
            SyscallCode::Kill => "kill".spec_bytes(),
            SyscallCode::Exec => "exec".spec_bytes(),
            SyscallCode::Fstat => "fstat".spec_bytes(),
            SyscallCode::Chdir => "chdir".spec_bytes(),
            SyscallCode::Dup => "dup".spec_bytes(),
            SyscallCode::Sbrk => "sbrk".spec_bytes(),
            SyscallCode::Sleep => "sleep".spec_bytes(),
            SyscallCode::Open => "open".spec_bytes(),
            SyscallCode::Write => "write".spec_bytes(),
            SyscallCode::Mknod => "mknod".spec_bytes(),
            SyscallCode::Unlink => "unlink".spec_bytes(),
            SyscallCode::Link => "link".spec_bytes(),
            SyscallCode::Mkdir => "mkdir".spec_bytes(),
            SyscallCode::Close => "close".spec_bytes(),
            SyscallCode::AlarmSet => "alarm_set".spec_bytes(),
            SyscallCode::AlarmClear => "alarm_clear".spec_bytes(),
            SyscallCode::SignalReturn => "signal_return".spec_bytes(),
            SyscallCode::Bind => "bind".spec_bytes(),
            SyscallCode::Unbind => "unbind".spec_bytes(),
            SyscallCode::Recv => "recv".spec_bytes(),
            SyscallCode::Send => "send".spec_bytes(),
            SyscallCode::GetSystemInfo => "get_system_info".spec_bytes(),
            SyscallCode::Reboot => "reboot".spec_bytes(),
            SyscallCode::Halt => "halt".spec_bytes(),
            SyscallCode::Abort => "abort".spec_bytes(),
            SyscallCode::Trace => "trace".spec_bytes(),
            SyscallCode::DumpKernelPageTable => "dump_kernel_page_table".spec_bytes(),
            SyscallCode::DumpUserPageTable => "dump_user_page_table".spec_bytes(),
        }
    }

    /// Returns the name of a system call.
    pub fn name(self) -> (r: &'static str)
        ensures
            r.spec_bytes() == self.name_bytes(),
    {
        match self {
            SyscallCode::Fork => "fork",
            SyscallCode::Exit => "exit",
            SyscallCode::Wait => "wait",
            SyscallCode::Pipe => "pipe",
            SyscallCode::Read => "read",
            SyscallCode::Kill => "kill",
            SyscallCode::Exec => "exec",
            SyscallCode::Fstat => "fstat",
            SyscallCode::Chdir => "chdir",
            SyscallCode::Dup => "dup",
            SyscallCode::Sbrk => "sbrk",
            SyscallCode::Sleep => "sleep",
            SyscallCode::Open => "open",
            SyscallCode::Write => "write",
            SyscallCode::Mknod => "mknod",
            SyscallCode::Unlink => "unlink",
            SyscallCode::Link => "link",
            SyscallCode::Mkdir => "mkdir",
            SyscallCode::Close => "close",
            SyscallCode::AlarmSet => "alarm_set",
            SyscallCode::AlarmClear => "alarm_clear",
            SyscallCode::SignalReturn => "signal_return",
            SyscallCode::Bind => "bind",
            SyscallCode::Unbind => "unbind",
            SyscallCode::Recv => "recv",
            SyscallCode::Send => "send",
            SyscallCode::GetSystemInfo => "get_system_info",
            SyscallCode::Reboot => "reboot",
            SyscallCode::Halt => "halt",
            SyscallCode::Abort => "abort",
            SyscallCode::Trace => "trace",
            SyscallCode::DumpKernelPageTable => "dump_kernel_page_table",
            SyscallCode::DumpUserPageTable => "dump_user_page_table",
        }
    }

    /// The first system call from number `k` on that has a name, where capital
    /// letters count as small ones.
    pub open spec fn named_from(name: Seq<u8>, k: nat) -> Option<Self>
        decreases SYSCALLS + 1 - k,
    {
        if k > SYSCALLS {
            None
        } else if Self::numbered(k as u64) is Some && lower_case(name) == lower_case(
            Self::numbered(k as u64)->0.name_bytes(),
        ) {
            Self::numbered(k as u64)
        } else {
            Self::named_from(name, k + 1)
        }
    }

    /// The system call with a name, where capital letters count as small ones.
    pub fn parse_name(name: &str) -> (r: Option<Self>)
        ensures
            r == Self::named_from(name.spec_bytes(), 1),
    {
        let bytes: &[u8] = name.as_bytes();
        let mut k: u64 = 1;
        while k <= SYSCALLS
            invariant
                1 <= k <= SYSCALLS + 1,
                bytes@ == name.spec_bytes(),
                Self::named_from(name.spec_bytes(), 1) == Self::named_from(
                    name.spec_bytes(),
                    k as nat,
                ),
            decreases SYSCALLS + 1 - k,
        {
            match Self::from_repr(k) {
                Some(code) => {
                    if same_letters(bytes, code.name().as_bytes()) {
                        return Some(code);
                    }
                },
                None => {},
            }
            k = k + 1;
        }
        None
    }
}

/// Different system calls have different numbers, and each is found by its own.
pub proof fn law_syscall_numbers(a: SyscallCode, b: SyscallCode)
    ensures
        SyscallCode::numbered(a.number()) == Some(a),
        a.number() == b.number() ==> a == b,
{
}

/// The system calls in the order of their numbers, from 1 on.
pub open spec fn syscalls_in_order() -> Seq<SyscallCode> {
    seq![
        SyscallCode::Fork,
        SyscallCode::Exit,
        SyscallCode::Wait,
        SyscallCode::Pipe,
        SyscallCode::Read,
        SyscallCode::Kill,
        SyscallCode::Exec,
        SyscallCode::Fstat,
        SyscallCode::Chdir,
        SyscallCode::Dup,
        SyscallCode::Sbrk,
        SyscallCode::Sleep,
        SyscallCode::Open,
        SyscallCode::Write,
        SyscallCode::Mknod,
        SyscallCode::Unlink,
        SyscallCode::Link,
        SyscallCode::Mkdir,
        SyscallCode::Close,
        SyscallCode::AlarmSet,
        SyscallCode::AlarmClear,
        SyscallCode::SignalReturn,
        SyscallCode::Bind,
        SyscallCode::Unbind,
        SyscallCode::Recv,
        SyscallCode::Send,
        SyscallCode::GetSystemInfo,
        SyscallCode::Reboot,
        SyscallCode::Halt,
        SyscallCode::Abort,
        SyscallCode::Trace,
        SyscallCode::DumpKernelPageTable,
        SyscallCode::DumpUserPageTable,
    ]
}

/// System calls are numbered in order, without a gap, and no other number is that of one.
pub proof fn law_syscall_order(i: int, n: u64)
    requires
        0 <= i < 33,
    ensures
        syscalls_in_order().len() == 33,
        syscalls_in_order()[i].number() == i + 1,
        SyscallCode::numbered((i + 1) as u64) == Some(syscalls_in_order()[i]),
        n == 0 || n > 33 ==> SyscallCode::numbered(n) is None,
{
}

/// A name leads to a system call that has it, if there is one, whether its letters are
/// capital or small ones.
pub proof fn law_syscall_names(name: Seq<u8>, k: nat, code: SyscallCode)
    requires
        1 <= k <= code.number(),
    ensures
        SyscallCode::named_from(name, k) matches Some(found) ==> lower_case(name) == lower_case(
            found.name_bytes(),
        ),
        lower_case(name) == lower_case(code.name_bytes()) ==> SyscallCode::named_from(name, k)
            is Some,
    decreases 34 - k,
{
    law_syscall_numbers(code, code);
    if k < code.number() {
        law_syscall_names(name, k + 1, code);
    } else {
        lemma_named_from(name, k + 1);
    }
}

proof fn lemma_named_from(name: Seq<u8>, k: nat)
    ensures
        SyscallCode::named_from(name, k) matches Some(found) ==> lower_case(name) == lower_case(
            found.name_bytes(),
        ),
    decreases 34 - k,
{
    if k <= 33 {
        lemma_named_from(name, k + 1);
    }
}

/// Capital letters become the small ones 32 numbers behind them; nothing else changes.
pub proof fn law_lower(b: u8)
    ensures
        0x41 <= b <= 0x5a ==> lower(b) == b + 0x20,
        !(0x41 <= b <= 0x5a) ==> lower(b) == b,
        lower(lower(b)) == lower(b),
{
}

/// A letter as a small one.
pub open spec fn lower(b: u8) -> u8 {
    if 0x41 <= b <= 0x5a {
        (b + 0x20) as u8
    } else {
        b
    }
}

/// All letters as small ones.
pub open spec fn lower_case(s: Seq<u8>) -> Seq<u8> {
    Seq::new(s.len(), |i: int| lower(s[i]))
}

fn small_letter(b: u8) -> (r: u8)
    ensures
        r == lower(b),
{
    if 0x41 <= b && b <= 0x5a {
        b + 0x20
    } else {
        b
    }
}

/// Whether two texts are the same, where capital letters count as small ones.
fn same_letters(a: &[u8], b: &[u8]) -> (r: bool)
    ensures
        r == (lower_case(a@) == lower_case(b@)),
{
    if a.len() != b.len() {
        assert(lower_case(a@).len() != lower_case(b@).len());
        return false;
    }
    let mut i: usize = 0;
    while i < a.len()
        invariant
            a@.len() == b@.len(),
            i <= a@.len(),
            forall|j: int| 0 <= j < i ==> lower_case(a@)[j] == lower_case(b@)[j],
        decreases a@.len() - i,
    {
        if small_letter(a[i]) != small_letter(b[i]) {
            assert(lower_case(a@)[i as int] != lower_case(b@)[i as int]);
            return false;
        }
        i = i + 1;
    }
    assert(lower_case(a@) =~= lower_case(b@));
    true
}

/// A system call: its number, what it is given and what it gives back.
pub trait Syscall {
    type Arg: RegisterValue;
    type Return: RegisterValue;

    /// Returns which system call it is.
    fn code() -> SyscallCode;
}

/// Registers that hold a value of some type.
#[derive(Debug, PartialEq, Eq)]
#[must_use]
pub struct Register<T, const N: usize> {
    pub a: [u64; N],
    pub phantom: PhantomData<T>,
}

impl<T, const N: usize> Register<T, N> {
    /// Registers with the given contents.
    pub fn new(a: [u64; N]) -> (r: Self)
        ensures
            r.a == a,
    {
        Register { a, phantom: PhantomData }
    }
}

/// Why registers do not hold a value.
#[derive(Debug, Clone, Copy, PartialEq, Eq, Structural)]
pub enum RegisterDecodeError {
    /// A number is too large for its type.
    IntConversion,
    InvalidSyscallErrorNo(i64),
    InvalidOpenFlags(u64),
    InvalidDesignator(u64),
    UnexpectedZero,
}

/// A value that system calls pass in registers.
pub trait RegisterValue: Sized {
    type DecodeError;
    type Repr;

    /// What the registers hold.
    spec fn held_in(self, repr: Self::Repr) -> bool;

    /// Puts the value into registers.
    fn encode(self) -> (r: Self::Repr)
        ensures
            self.held_in(r),
    ;

    /// Takes the value out of registers.
    fn try_decode(repr: Self::Repr) -> (r: Result<Self, Self::DecodeError>)
        ensures
            r matches Ok(value) ==> value.held_in(repr),
            r is Err ==> forall|value: Self| !(#[trigger] value.held_in(repr)),
    ;

    /// Registers hold one value at most.
    proof fn held_once(self, other: Self, repr: Self::Repr)
        requires
            self.held_in(repr),
            other.held_in(repr),
        ensures
            self == other,
    ;
}

/// What is put into registers is taken out of them again: whatever decoding registers
/// that hold a value may come to, it comes to that value.
pub proof fn law_register_round_trip<V: RegisterValue>(
    value: V,
    repr: V::Repr,
    decoded: Result<V, V::DecodeError>,
)
    requires
        value.held_in(repr),
        decoded matches Ok(other) ==> other.held_in(repr),
        decoded is Err ==> forall|other: V| !(#[trigger] other.held_in(repr)),
    ensures
        decoded == Ok::<V, V::DecodeError>(value),
{
    if let Ok(other) = decoded {
        value.held_once(other, repr);
    }
}

impl RegisterValue for u64 {
    type DecodeError = RegisterDecodeError;
    type Repr = Register<Self, 1>;

    open spec fn held_in(self, repr: Register<Self, 1>) -> bool {
        repr.a@[0] == self
    }

    fn encode(self) -> (r: Register<Self, 1>) {
        Register::new([self])
    }

    fn try_decode(repr: Register<Self, 1>) -> (r: Result<Self, RegisterDecodeError>) {
        Ok(repr.a[0])
    }

    proof fn held_once(self, other: Self, repr: Register<Self, 1>) {
    }
}

impl RegisterValue for u32 {
    type DecodeError = RegisterDecodeError;
    type Repr = Register<Self, 1>;

    open spec fn held_in(self, repr: Register<Self, 1>) -> bool {
        repr.a@[0] == self as u64
    }

    fn encode(self) -> (r: Register<Self, 1>) {
        Register::new([self as u64])
    }

    fn try_decode(repr: Register<Self, 1>) -> (r: Result<Self, RegisterDecodeError>)
        ensures
            r matches Err(e) ==> e == RegisterDecodeError::IntConversion,
    {
        let value: u64 = repr.a[0];
        if value <= u32::MAX as u64 {
            Ok(value as u32)
        } else {
            Err(RegisterDecodeError::IntConversion)
        }
    }

    proof fn held_once(self, other: Self, repr: Register<Self, 1>) {
    }
}

impl RegisterValue for OpenFlags {
    type DecodeError = RegisterDecodeError;
    type Repr = Register<Self, 1>;

    open spec fn held_in(self, repr: Register<Self, 1>) -> bool {
        repr.a@[0] == self.number()
    }

    fn encode(self) -> (r: Register<Self, 1>) {
        Register::new([self.bits()])
    }

    fn try_decode(repr: Register<Self, 1>) -> (r: Result<Self, RegisterDecodeError>)
        ensures
            r matches Err(e) ==> e == RegisterDecodeError::InvalidOpenFlags(repr.a@[0]),
    {
        let bits: u64 = repr.a[0];
        match OpenFlags::from_bits(bits) {
            Some(flags) => Ok(flags),
            None => {
                assert(forall|value: Self| #[trigger] value.held_in(repr) ==> value.number() == bits);
                Err(RegisterDecodeError::InvalidOpenFlags(bits))
            },
        }
    }

    proof fn held_once(self, other: Self, repr: Register<Self, 1>) {
        law_open_flags(self, other);
    }
}

} // verus!
