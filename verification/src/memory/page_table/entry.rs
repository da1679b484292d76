//! Entries of a page table.
use vstd::prelude::*;

verus! {

/// The flags of a page table entry.
#[derive(Debug, Clone, Copy, PartialEq, Eq, Structural)]
pub struct PtEntryFlags {
    /// Valid.
    pub v: bool,
    /// Readable.
    pub r: bool,
    /// Writable.
    pub w: bool,
    /// Executable.
    pub x: bool,
    /// Accessible from user mode.
    pub u: bool,
    /// Global mapping.
    pub g: bool,
    /// Accessed.
    pub a: bool,
    /// Dirty.
    pub d: bool,
    /// Copied on the next write.
    pub c: bool,
}

/// The number that a flag at the given position contributes.
pub open spec fn flag_bit(on: bool, bit: nat) -> nat {
    if on {
        bit
    } else {
        0
    }
}

fn flag_value(on: bool, bit: u64) -> (r: u64)
    ensures
        r == flag_bit(on, bit as nat),
{
    if on {
        bit
    } else {
        0
    }
}

impl PtEntryFlags {
    /// No flag.
    pub fn empty() -> (f: Self)
        ensures
            f == (PtEntryFlags {
                v: false,
                r: false,
                w: false,
                x: false,
                u: false,
                g: false,
                a: false,
                d: false,
                c: false,
            }),
    {
        PtEntryFlags {
            v: false,
            r: false,
            w: false,
            x: false,
            u: false,
            g: false,
            a: false,
            d: false,
            c: false,
        }
    }

    /// Readable, writable and accessible from user mode.
    pub fn urw() -> (f: Self)
        ensures
            f == Self::urw_spec(),
    {
        PtEntryFlags {
            v: false,
            r: true,
            w: true,
            x: false,
            u: true,
            g: false,
            a: false,
            d: false,
            c: false,
        }
    }

    /// Readable, writable and accessible from user mode.
    pub open spec fn urw_spec() -> Self {
        PtEntryFlags {
            v: false,
            r: true,
            w: true,
            x: false,
            u: true,
            g: false,
            a: false,
            d: false,
            c: false,
        }
    }

    /// Whether every flag of `other` is set.
    pub open spec fn has(self, other: Self) -> bool {
        &&& other.v ==> self.v
        &&& other.r ==> self.r
        &&& other.w ==> self.w
        &&& other.x ==> self.x
        &&& other.u ==> self.u
        &&& other.g ==> self.g
        &&& other.a ==> self.a
        &&& other.d ==> self.d
        &&& other.c ==> self.c
    }

    /// Whether every flag of `other` is set.
    pub fn contains(&self, other: Self) -> (r: bool)
        ensures
            r == self.has(other),
    {
        (!other.v || self.v) && (!other.r || self.r) && (!other.w || self.w) && (!other.x || self.x)
            && (!other.u || self.u) && (!other.g || self.g) && (!other.a || self.a) && (!other.d
            || self.d) && (!other.c || self.c)
    }

    /// Whether the page can be read, written or executed at all.
    pub open spec fn accessible(self) -> bool {
        self.r || self.w || self.x
    }

    /// Whether the page can be read, written or executed at all: whether the
    /// flags intersect `RWX`.
    pub fn intersects_rwx(&self) -> (r: bool)
        ensures
            r == self.accessible(),
    {
        self.r || self.w || self.x
    }

    /// The flags without those other than user, read, write and execute.
    pub open spec fn perm(self) -> Self {
        PtEntryFlags { v: false, g: false, a: false, d: false, c: false, ..self }
    }

    /// The flags without those other than user, read, write and execute: the
    /// intersection with `URWX`.
    pub fn intersection_urwx(self) -> (r: Self)
        ensures
            r == self.perm(),
    {
        PtEntryFlags { v: false, g: false, a: false, d: false, c: false, ..self }
    }

    /// The flags together with "valid".
    pub open spec fn valid(self) -> Self {
        PtEntryFlags { v: true, ..self }
    }

    /// The flags together with "valid".
    pub fn with_valid(self) -> (r: Self)
        ensures
            r == self.valid(),
    {
        PtEntryFlags { v: true, ..self }
    }

    /// What the flags allow once a pending copy has been made: "writable" comes
    /// with "copied on the next write".
    pub open spec fn effective(self) -> Self {
        PtEntryFlags { w: self.w || self.c, ..self }
    }

    /// What the flags allow once a pending copy has been made.
    pub fn effective_flags(self) -> (r: Self)
        ensures
            r == self.effective(),
    {
        PtEntryFlags { w: self.w || self.c, ..self }
    }

    /// The flags of a page that two page tables share from now on: a writable
    /// page becomes one that is copied on the next write.
    pub open spec fn shared(self) -> Self {
        PtEntryFlags { w: false, c: self.c || self.w, ..self }
    }

    /// The flags of a page that two page tables share from now on.
    pub fn shared_flags(self) -> (r: Self)
        ensures
            r == self.shared(),
    {
        PtEntryFlags { w: false, c: self.c || self.w, ..self }
    }

    /// The flags of a page that its only owner may write to.
    pub open spec fn owned(self) -> Self {
        PtEntryFlags { w: true, c: false, ..self }
    }

    /// The flags of a page that its only owner may write to.
    pub fn owned_flags(self) -> (r: Self)
        ensures
            r == self.owned(),
    {
        PtEntryFlags { w: true, c: false, ..self }
    }

    /// The number that holds the flags in a page table entry.
    pub open spec fn number(self) -> nat {
        flag_bit(self.v, 0x1) + flag_bit(self.r, 0x2) + flag_bit(self.w, 0x4) + flag_bit(
            self.x,
            0x8,
        ) + flag_bit(self.u, 0x10) + flag_bit(self.g, 0x20) + flag_bit(self.a, 0x40) + flag_bit(
            self.d,
            0x80,
        ) + flag_bit(self.c, 0x100)
    }

    /// The number that holds the flags in a page table entry.
    pub fn bits(&self) -> (r: u64)
        ensures
            r == self.number(),
    {
        flag_value(self.v, 0x1) + flag_value(self.r, 0x2) + flag_value(self.w, 0x4) + flag_value(
            self.x,
            0x8,
        ) + flag_value(self.u, 0x10) + flag_value(self.g, 0x20) + flag_value(self.a, 0x40)
            + flag_value(self.d, 0x80) + flag_value(self.c, 0x100)
    }
}

} // verus!
