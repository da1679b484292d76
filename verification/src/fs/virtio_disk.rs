//! Driver for a virtio block device.
use super::log::FS_BLOCK_SIZE;
use super::virtio::{
    MmioRegister, VirtioBlkReq, VirtioBlkReqType, VirtqDesc, VirtqDescFlags, ANY_LAYOUT,
    BLK_CONFIG_WCE, BLK_MQ, BLK_REQ_SIZE, BLK_RO, BLK_SCSI, BLK_SECTOR_SIZE, RING_EVENT_IDX,
    RING_INDIRECT_DESC, STATUS_ACKNOWLEDGE, STATUS_DRIVER, STATUS_DRIVER_OK, STATUS_FEATURES_OK,
    UNUSED_FEATURES,
};
use vstd::prelude::*;

verus! {

/// How many descriptors there are. Must be a power of two.
pub const NUM: usize = 8;

/// The lower half of an address.
pub fn addr_low(addr: u64) -> (r: u32)
    ensures
        r == addr % 0x1_0000_0000,
{
    (addr % 0x1_0000_0000) as u32
}

/// The upper half of an address.
pub fn addr_high(addr: u64) -> (r: u32)
    ensures
        r == addr / 0x1_0000_0000,
{
    (addr / 0x1_0000_0000) as u32
}

/// The two halves make up the address.
pub proof fn law_address_halves(addr: u64)
    ensures
        addr == (addr / 0x1_0000_0000) * 0x1_0000_0000 + addr % 0x1_0000_0000,
{
}

/// A request to move a block between the disk and a buffer in memory.
#[derive(Debug, Clone, Copy, PartialEq, Eq, Structural)]
pub struct Request {
    /// Whether the disk is written, rather than read.
    pub to_device: bool,
    /// The address of the buffer.
    pub addr: u64,
    /// The length of the buffer.
    pub len: u64,
}

impl Request {
    /// The length of the buffer.
    pub fn len(&self) -> (r: u64)
        ensures
            r == self.len,
    {
        self.len
    }

    /// Whether the disk is read or written.
    pub open spec fn kind(self) -> VirtioBlkReqType {
        if self.to_device {
            VirtioBlkReqType::Out
        } else {
            VirtioBlkReqType::In
        }
    }

    /// Returns whether the disk is read or written.
    pub fn ty(&self) -> (r: VirtioBlkReqType)
        ensures
            r == self.kind(),
    {
        if self.to_device {
            VirtioBlkReqType::Out
        } else {
            VirtioBlkReqType::In
        }
    }

    /// What the device does with the buffer: it writes to it where the disk is
    /// read.
    pub fn flag(&self) -> (r: VirtqDescFlags)
        ensures
            r == (VirtqDescFlags { next: false, write: !self.to_device }),
    {
        VirtqDescFlags { next: false, write: !self.to_device }
    }
}

/// What is known of an operation that begins at a descriptor.
#[derive(Debug, Clone, Copy, PartialEq, Eq, Structural)]
pub struct TrackInfo {
    /// What the device reports: 0 on success.
    pub status: u8,
    pub in_progress: bool,
}

/// Where the parts of a disk that the device accesses lie in memory.
#[derive(Debug, Clone, Copy, PartialEq, Eq, Structural)]
pub struct DmaAddrs {
    /// The address of the first request header; the others follow it.
    pub ops: u64,
    /// The address of the first status byte; the others follow it.
    pub status: u64,
}

impl DmaAddrs {
    /// Whether the addresses of all parts fit in a machine word.
    pub open spec fn wf(self, n: nat) -> bool {
        self.ops + BLK_REQ_SIZE * n <= u64::MAX && self.status + n <= u64::MAX
    }
}

/// A disk.
pub struct Disk<const N: usize> {
    /// A set (not a ring) of DMA descriptors, with which the driver tells the
    /// device where to read and write individual disk operations. Most commands
    /// consist of a "chain" (a linked list) of a couple of these descriptors.
    pub desc: Vec<VirtqDesc>,
    /// A ring in which the driver writes the numbers of the descriptors that it
    /// would like the device to process: the head of each chain.
    pub avail_ring: Vec<u16>,
    /// How many entries have been added to that ring.
    pub avail_idx: u16,
    /// Whether a descriptor is free.
    pub free: Vec<bool>,
    /// How many entries of the ring of finished descriptors have been looked at.
    pub used_idx: u16,
    /// What is known of operations in flight, for use when the completion
    /// interrupt arrives. Indexed by first descriptor of the chain.
    pub info: Vec<TrackInfo>,
    /// Disk command headers. One-for-one with descriptors, for convenience.
    pub ops: Vec<VirtioBlkReq>,
}

impl<const N: usize> Disk<N> {
    /// There are as many of everything as there are descriptors, and a free
    /// descriptor describes nothing.
    pub open spec fn wf(self) -> bool {
        &&& 0 < N <= u16::MAX
        &&& self.desc@.len() == N
        &&& self.avail_ring@.len() == N
        &&& self.free@.len() == N
        &&& self.info@.len() == N
        &&& self.ops@.len() == N
        &&& forall|i: int|
            0 <= i < N && #[trigger] self.free@[i] ==> self.desc@[i] == VirtqDesc::unused()
    }

    /// Whether everything but the descriptors is as in `other`.
    pub open spec fn same_but_desc(self, other: Self) -> bool {
        &&& self.avail_ring == other.avail_ring
        &&& self.avail_idx == other.avail_idx
        &&& self.used_idx == other.used_idx
        &&& self.info == other.info
        &&& self.ops == other.ops
    }

    /// A disk on which nothing goes on.
    pub fn new() -> (r: Self)
        requires
            0 < N <= u16::MAX,
        ensures
            r.wf(),
            r.desc@ == Seq::new(N as nat, |i: int| VirtqDesc::unused()),
            r.avail_ring@ == Seq::new(N as nat, |i: int| 0u16),
            r.avail_idx == 0,
            r.free@ == Seq::new(N as nat, |i: int| true),
            r.used_idx == 0,
            r.info@ == Seq::new(N as nat, |i: int| TrackInfo { status: 0, in_progress: false }),
            r.ops@ == Seq::new(
                N as nat,
                |i: int| VirtioBlkReq { ty: VirtioBlkReqType::In, reserved: 0, sector: 0 },
            ),
    {
        let mut desc: Vec<VirtqDesc> = Vec::new();
        let mut avail_ring: Vec<u16> = Vec::new();
        let mut free: Vec<bool> = Vec::new();
        let mut info: Vec<TrackInfo> = Vec::new();
        let mut ops: Vec<VirtioBlkReq> = Vec::new();
        let mut i: usize = 0;
        while i < N
            invariant
                i <= N,
                desc@ == Seq::new(i as nat, |i: int| VirtqDesc::unused()),
                avail_ring@ == Seq::new(i as nat, |i: int| 0u16),
                free@ == Seq::new(i as nat, |i: int| true),
                info@ == Seq::new(
                    i as nat,
                    |i: int| TrackInfo { status: 0, in_progress: false },
                ),
                ops@ == Seq::new(
                    i as nat,
                    |i: int| VirtioBlkReq { ty: VirtioBlkReqType::In, reserved: 0, sector: 0 },
                ),
            decreases N - i,
        {
            desc.push(VirtqDesc::empty());
            avail_ring.push(0);
            free.push(true);
            info.push(TrackInfo { status: 0, in_progress: false });
            ops.push(VirtioBlkReq { ty: VirtioBlkReqType::In, reserved: 0, sector: 0 });
            i = i + 1;
        }
        Disk { desc, avail_ring, avail_idx: 0, free, used_idx: 0, info, ops }
    }

    /// Finds a free descriptor, marks it non-free, returns its index.
    pub fn alloc_desc(&mut self) -> (r: Option<u16>)
        requires
            old(self).wf(),
        ensures
            final(self).wf(),
            final(self).same_but_desc(*old(self)),
            final(self).desc == old(self).desc,
            match r {
                Some(idx) => {
                    &&& idx < N
                    &&& old(self).free@[idx as int]
                    &&& forall|j: int| 0 <= j < idx ==> !#[trigger] old(self).free@[j]
                    &&& final(self).free@ == old(self).free@.update(idx as int, false)
                },
                None => {
                    &&& forall|j: int| 0 <= j < N ==> !#[trigger] old(self).free@[j]
                    &&& final(self).free == old(self).free
                },
            },
    {
        let mut i: usize = 0;
        while i < N
            invariant
                self.wf(),
                *self == *old(self),
                i <= N,
                forall|j: int| 0 <= j < i ==> !#[trigger] self.free@[j],
            decreases N - i,
        {
            if self.free[i] {
                self.free.set(i, false);
                return Some(i as u16);
            }
            i = i + 1;
        }
        None
    }

    /// Marks a descriptor as free. Those that wait for one are to be woken.
    pub fn free_desc(&mut self, i: u16)
        requires
            old(self).wf(),
            i < N,
            !old(self).free@[i as int],
        ensures
            final(self).wf(),
            final(self).same_but_desc(*old(self)),
            final(self).desc@ == old(self).desc@.update(i as int, VirtqDesc::unused()),
            final(self).free@ == old(self).free@.update(i as int, true),
    {
        self.desc.set(i as usize, VirtqDesc::empty());
        self.free.set(i as usize, true);
    }

    /// Whether descriptors make up a chain: each leads to the next, and the last
    /// one to none; all are different, and none is free.
    pub open spec fn is_chain(self, chain: Seq<u16>) -> bool {
        &&& chain.len() > 0
        &&& chain.no_duplicates()
        &&& forall|k: int|
            0 <= k < chain.len() ==> {
                &&& #[trigger] chain[k] < N
                &&& !self.free@[chain[k] as int]
                &&& self.desc@[chain[k] as int].flags.next == (k + 1 < chain.len())
                &&& k + 1 < chain.len() ==> self.desc@[chain[k] as int].next == chain[k + 1]
            }
    }

    /// The chain that begins with a descriptor.
    pub open spec fn chain_from(self, i: u16) -> Seq<u16> {
        choose|chain: Seq<u16>| #[trigger] self.is_chain(chain) && chain[0] == i
    }

    /// Whether a chain begins with a descriptor.
    pub open spec fn has_chain(self, i: u16) -> bool {
        exists|chain: Seq<u16>| #[trigger] self.is_chain(chain) && chain[0] == i
    }

    /// Two chains with the same first descriptor are the same.
    pub proof fn lemma_one_chain(self, a: Seq<u16>, b: Seq<u16>)
        requires
            self.is_chain(a),
            self.is_chain(b),
            a[0] == b[0],
        ensures
            a == b,
    {
        self.lemma_chains_agree(a, b, 0);
        if a.len() <= b.len() {
            self.lemma_chains_agree(a, b, a.len() - 1);
            assert(self.desc@[a[a.len() - 1] as int].flags.next == false);
            assert(self.desc@[b[a.len() - 1] as int].flags.next == (a.len() < b.len()));
        } else {
            self.lemma_chains_agree(a, b, b.len() - 1);
            assert(self.desc@[a[b.len() - 1] as int].flags.next == true);
            assert(self.desc@[b[b.len() - 1] as int].flags.next == false);
        }
        assert forall|k: int| 0 <= k < a.len() implies a[k] == b[k] by {
            self.lemma_chains_agree(a, b, k);
        }
        assert(a =~= b);
    }

    proof fn lemma_chains_agree(self, a: Seq<u16>, b: Seq<u16>, k: int)
        requires
            self.is_chain(a),
            self.is_chain(b),
            a[0] == b[0],
            0 <= k < a.len(),
            k < b.len(),
        ensures
            a[k] == b[k],
        decreases k,
    {
        if k > 0 {
            self.lemma_chains_agree(a, b, k - 1);
            assert(a[k - 1] == b[k - 1]);
            assert(self.desc@[a[k - 1] as int].next == a[k - 1 + 1]);
            assert(self.desc@[b[k - 1] as int].next == b[k - 1 + 1]);
        }
    }

    /// Frees a chain of descriptors.
    pub fn free_chain(&mut self, i: u16)
        requires
            old(self).wf(),
            old(self).has_chain(i),
        ensures
            final(self).wf(),
            final(self).same_but_desc(*old(self)),
            forall|d: int|
                0 <= d < N ==> #[trigger] final(self).free@[d] == (old(self).free@[d] || old(
                    self,
                ).chain_from(i).contains(d as u16)),
            forall|d: int|
                0 <= d < N ==> #[trigger] final(self).desc@[d] == (if old(self).chain_from(
                    i,
                ).contains(d as u16) {
                    VirtqDesc::unused()
                } else {
                    old(self).desc@[d]
                }),
    {
        let ghost chain = self.chain_from(i);
        let ghost mut k: int = 0;
        let mut i: u16 = i;
        let ghost first = i;
        let mut more: bool = true;
        while more
            invariant
                self.wf(),
                old(self).wf(),
                self.same_but_desc(*old(self)),
                old(self).is_chain(chain),
                chain == old(self).chain_from(first),
                0 <= k <= chain.len(),
                more ==> k < chain.len() && chain[k] == i,
                !more ==> k == chain.len(),
                forall|d: int|
                    0 <= d < N ==> #[trigger] self.free@[d] == (old(self).free@[d] || chain.take(
                        k,
                    ).contains(d as u16)),
                forall|d: int|
                    0 <= d < N ==> #[trigger] self.desc@[d] == (if chain.take(k).contains(
                        d as u16,
                    ) {
                        VirtqDesc::unused()
                    } else {
                        old(self).desc@[d]
                    }),
            decreases chain.len() - k,
        {
            proof {
                let c = chain[k];
                assert(!chain.take(k).contains(c)) by {
                    if chain.take(k).contains(c) {
                        let j = chain.take(k).index_of(c);
                        assert(chain[j] == chain[k]);
                    }
                }
                assert(!old(self).free@[c as int]);
                assert(self.desc@[i as int] == old(self).desc@[i as int]);
                assert(chain.take(k + 1) =~= chain.take(k).push(c));
                assert forall|d: u16| #[trigger] chain.take(k + 1).contains(d) <==> chain.take(
                    k,
                ).contains(d) || d == c by {
                    if chain.take(k).contains(d) {
                        let j = chain.take(k).index_of(d);
                        assert(chain.take(k + 1)[j] == d);
                    }
                    if d == c {
                        assert(chain.take(k + 1)[k] == d);
                    }
                    if chain.take(k + 1).contains(d) && d != c {
                        let j = chain.take(k + 1).index_of(d);
                        assert(chain.take(k)[j] == d);
                    }
                }
            }
            let desc: VirtqDesc = self.desc[i as usize];
            self.free_desc(i);
            more = desc.flags.next;
            i = desc.next;
            proof {
                k = k + 1;
            }
        }
        assert(chain.take(chain.len() as int) =~= chain);
    }

    /// Whether three descriptors are the three lowest free ones.
    pub open spec fn three_lowest(self, idx: Seq<u16>) -> bool {
        &&& idx.len() == 3
        &&& idx[0] < idx[1] < idx[2] < N
        &&& self.free@[idx[0] as int]
        &&& self.free@[idx[1] as int]
        &&& self.free@[idx[2] as int]
        &&& forall|j: int|
            0 <= j < idx[2] && #[trigger] self.free@[j] ==> j == idx[0] || j == idx[1]
    }

    /// Allocates three descriptors (they need not be contiguous).
    ///
    /// Disk transfers always use three descriptors.
    pub fn alloc3_desc(&mut self) -> (r: Option<[u16; 3]>)
        requires
            old(self).wf(),
        ensures
            final(self).wf(),
            final(self).same_but_desc(*old(self)),
            final(self).desc@ == old(self).desc@,
            match r {
                Some(idx) => {
                    &&& old(self).three_lowest(idx@)
                    &&& final(self).free@ == old(self).free@.update(
                        idx@[0] as int,
                        false,
                    ).update(idx@[1] as int, false).update(idx@[2] as int, false)
                },
                None => {
                    &&& forall|idx: Seq<u16>| !#[trigger] old(self).three_lowest(idx)
                    &&& final(self).free@ == old(self).free@
                },
            },
    {
        let a: u16 = match self.alloc_desc() {
            Some(a) => a,
            None => {
                return None;
            },
        };
        let b: u16 = match self.alloc_desc() {
            Some(b) => b,
            None => {
                self.free_desc(a);
                proof {
                    assert(self.free@ =~= old(self).free@);
                    assert(self.desc@ =~= old(self).desc@);
                }
                return None;
            },
        };
        let c: u16 = match self.alloc_desc() {
            Some(c) => c,
            None => {
                self.free_desc(a);
                self.free_desc(b);
                proof {
                    assert(self.free@ =~= old(self).free@);
                    assert(self.desc@ =~= old(self).desc@);
                    assert forall|idx: Seq<u16>| !#[trigger] old(self).three_lowest(idx) by {
                        if old(self).three_lowest(idx) {
                            let gone = old(self).free@.update(a as int, false).update(
                                b as int,
                                false,
                            );
                            assert(!gone[idx[0] as int] && !gone[idx[1] as int]
                                && !gone[idx[2] as int]);
                        }
                    }
                }
                return None;
            },
        };
        let idx: [u16; 3] = [a, b, c];
        proof {
            let one = old(self).free@.update(a as int, false);
            let two = one.update(b as int, false);
            assert(idx@[0] == a && idx@[1] == b && idx@[2] == c);
            assert(one[b as int] && two[c as int]);
            assert(a < b) by {
                if b < a {
                    assert(one[b as int] == old(self).free@[b as int]);
                }
            }
            assert(b < c) by {
                if c < b && c != a {
                    assert(one[c as int] == old(self).free@[c as int]);
                }
            }
            assert forall|j: int| 0 <= j < c && #[trigger] old(self).free@[j] implies j == a || j
                == b by {
                assert(!two[j]);
            }
        }
        Some(idx)
    }

    /// Whether three descriptors can carry a request: they are different, and none
    /// is free.
    pub open spec fn can_send(self, idx: Seq<u16>) -> bool {
        &&& idx.len() == 3
        &&& idx[0] < N && idx[1] < N && idx[2] < N
        &&& idx[0] != idx[1] && idx[1] != idx[2] && idx[0] != idx[2]
        &&& !self.free@[idx[0] as int] && !self.free@[idx[1] as int] && !self.free@[idx[2] as int]
    }

    /// Hands a request to the device. It is to be told so afterwards, by writing
    /// the number of the queue, 0, to its notification register.
    pub fn send_request(&mut self, offset: u64, req: &Request, desc_idx: [u16; 3], addrs: &DmaAddrs)
        requires
            old(self).wf(),
            old(self).can_send(desc_idx@),
            offset % BLK_SECTOR_SIZE == 0,
            req.len == FS_BLOCK_SIZE,
            addrs.wf(N as nat),
        ensures
            final(self).wf(),
            final(self).free == old(self).free,
            final(self).used_idx == old(self).used_idx,
            final(self).ops@ == old(self).ops@.update(
                desc_idx@[0] as int,
                VirtioBlkReq {
                    ty: req.kind(),
                    reserved: 0,
                    sector: (offset / BLK_SECTOR_SIZE) as u64,
                },
            ),
            final(self).desc@ == sent_desc(old(self).desc@, *req, desc_idx@, *addrs),
            final(self).info@ == old(self).info@.update(
                desc_idx@[0] as int,
                TrackInfo { status: 0xff, in_progress: true },
            ),
            final(self).avail_ring@ == old(self).avail_ring@.update(
                old(self).avail_idx as int % N as int,
                desc_idx@[0],
            ),
            final(self).avail_idx == (if old(self).avail_idx == u16::MAX {
                0
            } else {
                (old(self).avail_idx + 1) as u16
            }),
            request_sent(*old(self), *final(self), offset, *req, desc_idx@, *addrs),
    {
        let first: u16 = desc_idx[0];
        let second: u16 = desc_idx[1];
        let third: u16 = desc_idx[2];
        let sector: u64 = offset / BLK_SECTOR_SIZE;
        self.ops.set(first as usize, VirtioBlkReq { ty: req.ty(), reserved: 0, sector });
        self.desc.set(
            first as usize,
            VirtqDesc {
                addr: addrs.ops + BLK_REQ_SIZE * (first as u64),
                len: BLK_REQ_SIZE as u32,
                flags: VirtqDescFlags { next: true, write: false },
                next: second,
            },
        );
        self.desc.set(
            second as usize,
            VirtqDesc {
                addr: req.addr,
                len: FS_BLOCK_SIZE as u32,
                flags: VirtqDescFlags { next: true, write: req.flag().write },
                next: third,
            },
        );
        // the device writes 0 on success
        self.info.set(first as usize, TrackInfo { status: 0xff, in_progress: true });
        self.desc.set(
            third as usize,
            VirtqDesc {
                addr: addrs.status + first as u64,
                len: 1,
                flags: VirtqDescFlags { next: false, write: true },
                next: 0,
            },
        );
        // tell the device the first index in our chain of descriptors
        let slot: usize = self.avail_idx as usize % N;
        assert(slot < N);
        self.avail_ring.set(slot, first);
        // tell the device another entry of the ring is available
        self.avail_idx = self.avail_idx.wrapping_add(1);
    }

    /// How many entries of the ring of finished descriptors are still to be looked
    /// at, if the device has added `device_idx` of them.
    pub open spec fn pending(self, device_idx: u16) -> nat {
        if device_idx >= self.used_idx {
            (device_idx - self.used_idx) as nat
        } else {
            (device_idx + 0x1_0000 - self.used_idx) as nat
        }
    }

    /// The `k`-th of these entries.
    pub open spec fn used_entry(self, ring: Seq<u32>, k: int) -> int {
        ring[(self.used_idx + k) % 0x1_0000 % N as int] as int
    }

    /// Takes note of the operations that the device has finished: `device_idx` and
    /// `used_ring` are what it has written to its ring, `statuses` what it reports.
    /// Returns the descriptors whose operations are done; those that wait for them
    /// are to be woken.
    pub fn handle_interrupt(&mut self, device_idx: u16, used_ring: &[u32], statuses: &[u8]) -> (r: Vec<
        u32,
    >)
        requires
            old(self).wf(),
            used_ring@.len() == N,
            statuses@.len() == N,
            forall|k: int|
                0 <= k < old(self).pending(device_idx) ==> {
                    &&& #[trigger] old(self).used_entry(used_ring@, k) < N
                    &&& statuses@[old(self).used_entry(used_ring@, k)] == 0
                },
        ensures
            final(self).wf(),
            final(self).used_idx == device_idx,
            final(self).desc == old(self).desc,
            final(self).free == old(self).free,
            final(self).ops == old(self).ops,
            final(self).avail_ring == old(self).avail_ring,
            final(self).avail_idx == old(self).avail_idx,
            r@.len() == old(self).pending(device_idx),
            forall|k: int|
                0 <= k < r@.len() ==> #[trigger] r@[k] == old(self).used_entry(used_ring@, k),
            forall|d: int|
                0 <= d < N ==> #[trigger] final(self).info@[d] == (if r@.contains(d as u32) {
                    TrackInfo { status: 0, in_progress: false }
                } else {
                    old(self).info@[d]
                }),
            completed(*old(self), *final(self), device_idx, used_ring@, r@),
    {
        let mut done: Vec<u32> = Vec::new();
        let ghost before = *self;
        while self.used_idx != device_idx
            invariant
                self.wf(),
                before == *old(self),
                used_ring@.len() == N,
                statuses@.len() == N,
                forall|k: int|
                    0 <= k < before.pending(device_idx) ==> {
                        &&& #[trigger] before.used_entry(used_ring@, k) < N
                        &&& statuses@[before.used_entry(used_ring@, k)] == 0
                    },
                self.desc == before.desc,
                self.free == before.free,
                self.ops == before.ops,
                self.avail_ring == before.avail_ring,
                self.avail_idx == before.avail_idx,
                done@.len() + self.pending(device_idx) == before.pending(device_idx),
                self.used_idx == (before.used_idx + done@.len()) % 0x1_0000,
                forall|k: int|
                    0 <= k < done@.len() ==> #[trigger] done@[k] == before.used_entry(
                        used_ring@,
                        k,
                    ),
                forall|d: int|
                    0 <= d < N ==> #[trigger] self.info@[d] == (if done@.contains(d as u32) {
                        TrackInfo { status: 0, in_progress: false }
                    } else {
                        before.info@[d]
                    }),
            decreases self.pending(device_idx),
        {
            let ghost so_far = done@;
            let slot: usize = self.used_idx as usize % N;
            assert(slot < N);
            let id: u32 = used_ring[slot];
            proof {
                let k = done@.len() as int;
                assert(before.used_entry(used_ring@, k) == id);
            }
            let status: u8 = statuses[id as usize];
            self.info.set(id as usize, TrackInfo { status, in_progress: false });
            done.push(id);
            self.used_idx = self.used_idx.wrapping_add(1);
            proof {
                assert forall|d: u32| #[trigger] done@.contains(d) <==> so_far.contains(d) || d
                    == id by {
                    if so_far.contains(d) {
                        let j = so_far.index_of(d);
                        assert(done@[j] == d);
                    }
                    if d == id {
                        assert(done@[so_far.len() as int] == d);
                    }
                    if done@.contains(d) && d != id {
                        let j = done@.index_of(d);
                        assert(so_far[j] == d);
                    }
                }
            }
        }
        done
    }
}

/// The descriptors after a request has been handed to the device: the first leads
/// to the header, the second to the buffer, the third to the status.
pub open spec fn sent_desc(
    desc: Seq<VirtqDesc>,
    req: Request,
    idx: Seq<u16>,
    addrs: DmaAddrs,
) -> Seq<VirtqDesc> {
    desc.update(
        idx[0] as int,
        VirtqDesc {
            addr: (addrs.ops + BLK_REQ_SIZE * idx[0]) as u64,
            len: BLK_REQ_SIZE as u32,
            flags: VirtqDescFlags { next: true, write: false },
            next: idx[1],
        },
    ).update(
        idx[1] as int,
        VirtqDesc {
            addr: req.addr,
            len: FS_BLOCK_SIZE as u32,
            flags: VirtqDescFlags { next: true, write: !req.to_device },
            next: idx[2],
        },
    ).update(
        idx[2] as int,
        VirtqDesc {
            addr: (addrs.status + idx[0]) as u64,
            len: 1,
            flags: VirtqDescFlags { next: false, write: true },
            next: 0,
        },
    )
}

/// Whether a request has been handed to the device in three descriptors: the device
/// finds its header, its descriptors and the number of the first of them, and nothing
/// that belongs to another request has changed.
pub open spec fn request_sent<const N: usize>(
    before: Disk<N>,
    after: Disk<N>,
    offset: u64,
    req: Request,
    idx: Seq<u16>,
    addrs: DmaAddrs,
) -> bool {
    &&& after.desc@ == sent_desc(before.desc@, req, idx, addrs)
    &&& after.ops@ == before.ops@.update(
        idx[0] as int,
        VirtioBlkReq { ty: req.kind(), reserved: 0, sector: (offset / BLK_SECTOR_SIZE) as u64 },
    )
    &&& after.info@ == before.info@.update(
        idx[0] as int,
        TrackInfo { status: 0xff, in_progress: true },
    )
    &&& after.avail_ring@ == before.avail_ring@.update(
        before.avail_idx as int % N as int,
        idx[0],
    )
    &&& after.avail_idx == (if before.avail_idx == u16::MAX {
        0
    } else {
        (before.avail_idx + 1) as u16
    })
    &&& after.used_idx == before.used_idx
}

/// What the device finds of a request that has been sent.
///
/// The first descriptor is that of the header, which is the one that belongs to this very
/// descriptor, and which the device only reads. The second is that of the buffer, with
/// its address and its length; the device writes to it if and only if the request reads
/// the disk. The third is that of the status byte that belongs to the first descriptor;
/// the device always writes to it. Each leads to the next.
pub proof fn law_device_finds_request<const N: usize>(
    before: Disk<N>,
    after: Disk<N>,
    offset: u64,
    req: Request,
    idx: Seq<u16>,
    addrs: DmaAddrs,
)
    requires
        before.wf(),
        idx.len() == 3,
        idx[0] < N && idx[1] < N && idx[2] < N,
        idx[0] != idx[1] && idx[1] != idx[2] && idx[0] != idx[2],
        addrs.ops + 16 * N <= u64::MAX,
        addrs.status + N <= u64::MAX,
        offset % 512 == 0,
        req.len == 1024,
        request_sent(before, after, offset, req, idx, addrs),
    ensures
        ({
            let header = after.desc@[idx[0] as int];
            let buffer = after.desc@[idx[1] as int];
            let status = after.desc@[idx[2] as int];
            &&& header.addr == addrs.ops + 16 * idx[0]
            &&& header.len == 16
            &&& !header.flags.write
            &&& header.flags.next && header.next == idx[1]
            &&& buffer.addr == req.addr
            &&& buffer.len == req.len
            &&& buffer.flags.write <==> !req.to_device
            &&& buffer.flags.next && buffer.next == idx[2]
            &&& status.addr == addrs.status + idx[0]
            &&& status.len == 1
            &&& status.flags.write
            &&& !status.flags.next
        }),
        after.ops@[idx[0] as int].ty is Out <==> req.to_device,
        after.ops@[idx[0] as int].ty is In <==> !req.to_device,
        after.ops@[idx[0] as int].reserved == 0,
        512 * after.ops@[idx[0] as int].sector == offset,
        after.info@[idx[0] as int].in_progress,
        after.info@[idx[0] as int].status != 0,
{
}

/// A request that is sent is announced behind those that were announced before it, and
/// changes nothing that belongs to another descriptor or to another place of the ring.
pub proof fn law_request_announced<const N: usize>(
    before: Disk<N>,
    after: Disk<N>,
    offset: u64,
    req: Request,
    idx: Seq<u16>,
    addrs: DmaAddrs,
)
    requires
        before.wf(),
        idx.len() == 3,
        idx[0] < N && idx[1] < N && idx[2] < N,
        request_sent(before, after, offset, req, idx, addrs),
    ensures
        after.avail_ring@[before.avail_idx as int % N as int] == idx[0],
        (after.avail_idx - before.avail_idx - 1) % 0x1_0000 == 0,
        after.used_idx == before.used_idx,
        forall|k: int|
            0 <= k < N && k != before.avail_idx as int % N as int ==> #[trigger] after.avail_ring@[k]
                == before.avail_ring@[k],
        forall|d: int|
            0 <= d < N && d != idx[0] && d != idx[1] && d != idx[2] ==> #[trigger] after.desc@[d]
                == before.desc@[d],
        forall|d: int|
            0 <= d < N && d != idx[0] ==> #[trigger] after.ops@[d] == before.ops@[d],
        forall|d: int|
            0 <= d < N && d != idx[0] ==> #[trigger] after.info@[d] == before.info@[d],
{
}

/// Two requests that are in flight at the same time, in different descriptors, are told
/// apart by the device: no descriptor, header or status byte of one is one of the other.
pub proof fn law_requests_apart<const N: usize>(
    first: Disk<N>,
    second: Disk<N>,
    third: Disk<N>,
    offset: u64,
    req: Request,
    idx: Seq<u16>,
    other_offset: u64,
    other: Request,
    other_idx: Seq<u16>,
    addrs: DmaAddrs,
)
    requires
        first.wf(),
        second.wf(),
        addrs.ops + 16 * N <= u64::MAX,
        addrs.status + N <= u64::MAX,
        idx.len() == 3,
        other_idx.len() == 3,
        idx.no_duplicates(),
        other_idx.no_duplicates(),
        forall|k: int| 0 <= k < 3 ==> #[trigger] idx[k] < N,
        forall|k: int| 0 <= k < 3 ==> #[trigger] other_idx[k] < N,
        forall|k: int, m: int|
            0 <= k < 3 && 0 <= m < 3 ==> #[trigger] idx[k] != #[trigger] other_idx[m],
        request_sent(first, second, offset, req, idx, addrs),
        request_sent(second, third, other_offset, other, other_idx, addrs),
    ensures
        forall|k: int| 0 <= k < 3 ==> third.desc@[#[trigger] idx[k] as int]
            == second.desc@[idx[k] as int],
        third.ops@[idx[0] as int] == second.ops@[idx[0] as int],
        third.info@[idx[0] as int].in_progress,
        third.desc@[idx[0] as int].addr + 16 <= third.desc@[other_idx[0] as int].addr
            || third.desc@[other_idx[0] as int].addr + 16 <= third.desc@[idx[0] as int].addr,
        third.desc@[idx[2] as int].addr != third.desc@[other_idx[2] as int].addr,
{
    assert(idx[0] != other_idx[0]);
    assert(idx[0] != idx[1] && idx[0] != idx[2] && idx[1] != idx[2]);
    assert(other_idx[0] != other_idx[1] && other_idx[0] != other_idx[2] && other_idx[1]
        != other_idx[2]);
    assert forall|k: int| 0 <= k < 3 implies third.desc@[#[trigger] idx[k] as int]
        == second.desc@[idx[k] as int] by {
        assert(idx[k] != other_idx[0] && idx[k] != other_idx[1] && idx[k] != other_idx[2]);
    }
    assert(third.desc@[idx[0] as int] == second.desc@[idx[0] as int]);
    assert(third.desc@[idx[2] as int] == second.desc@[idx[2] as int]);
}

/// How far a transfer has got.
#[derive(Debug, Clone, Copy, PartialEq, Eq)]
pub enum Transfer {
    /// It has no descriptors yet.
    Waiting,
    /// It has been handed to the device, in these descriptors.
    Sent([u16; 3]),
    /// It is done, and its descriptors are free.
    Finished,
}

/// What a process does that wants a block transferred.
#[derive(Debug, Clone, Copy, PartialEq, Eq, Structural)]
pub enum TransferAction {
    /// It waits for a descriptor to become free.
    WaitForDesc,
    /// It tells the device that there is a request.
    Notify,
    /// It waits for the operation that begins with this descriptor.
    WaitForCompletion(u16),
    /// It wakes those that wait for descriptors, and goes on.
    Done,
}

/// Takes a transfer one step further.
pub fn read_or_write<const N: usize>(
    disk: &mut Disk<N>,
    transfer: Transfer,
    offset: u64,
    req: &Request,
    addrs: &DmaAddrs,
) -> (r: (Transfer, TransferAction))
    requires
        old(disk).wf(),
        offset % BLK_SECTOR_SIZE == 0,
        req.len == FS_BLOCK_SIZE,
        addrs.wf(N as nat),
        transfer matches Transfer::Sent(idx) ==> {
            &&& idx@[0] < N
            &&& old(disk).has_chain(idx@[0])
        },
    ensures
        final(disk).wf(),
        match transfer {
            Transfer::Waiting => match r.0 {
                Transfer::Sent(idx) => {
                    &&& r.1 == TransferAction::Notify
                    &&& old(disk).three_lowest(idx@)
                    &&& final(disk).free@ == taken(old(disk).free@, idx@)
                    &&& final(disk).desc@ == sent_desc(old(disk).desc@, *req, idx@, *addrs)
                    &&& final(disk).info@ == old(disk).info@.update(
                        idx@[0] as int,
                        TrackInfo { status: 0xff, in_progress: true },
                    )
                    &&& final(disk).ops@ == old(disk).ops@.update(
                        idx@[0] as int,
                        VirtioBlkReq {
                            ty: req.kind(),
                            reserved: 0,
                            sector: (offset / BLK_SECTOR_SIZE) as u64,
                        },
                    )
                    &&& final(disk).avail_ring@ == old(disk).avail_ring@.update(
                        old(disk).avail_idx as int % N as int,
                        idx@[0],
                    )
                    &&& final(disk).avail_idx == (if old(disk).avail_idx == u16::MAX {
                        0
                    } else {
                        (old(disk).avail_idx + 1) as u16
                    })
                    &&& final(disk).used_idx == old(disk).used_idx
                    &&& final(disk).has_chain(idx@[0])
                    &&& final(disk).chain_from(idx@[0]) == idx@
                    &&& request_sent(*old(disk), *final(disk), offset, *req, idx@, *addrs)
                },
                _ => {
                    &&& r == (Transfer::Waiting, TransferAction::WaitForDesc)
                    &&& forall|idx: Seq<u16>| !#[trigger] old(disk).three_lowest(idx)
                    &&& final(disk).free@ == old(disk).free@
                    &&& final(disk).desc@ == old(disk).desc@
                    &&& final(disk).same_but_desc(*old(disk))
                },
            },
            Transfer::Sent(idx) => if old(disk).info@[idx@[0] as int].in_progress {
                &&& r == (transfer, TransferAction::WaitForCompletion(idx@[0]))
                &&& *final(disk) == *old(disk)
            } else {
                &&& r == (Transfer::Finished, TransferAction::Done)
                &&& final(disk).same_but_desc(*old(disk))
                &&& forall|d: int|
                    0 <= d < N ==> #[trigger] final(disk).free@[d] == (old(disk).free@[d] || old(
                        disk,
                    ).chain_from(idx@[0]).contains(d as u16))
                &&& forall|d: int|
                    0 <= d < N ==> #[trigger] final(disk).desc@[d] == (if old(disk).chain_from(
                        idx@[0],
                    ).contains(d as u16) {
                        VirtqDesc::unused()
                    } else {
                        old(disk).desc@[d]
                    })
            },
            Transfer::Finished => {
                &&& r == (Transfer::Finished, TransferAction::Done)
                &&& *final(disk) == *old(disk)
            },
        },
        transfer_step(*old(disk), *final(disk), transfer, offset, *req, *addrs, r),
{
    match transfer {
        Transfer::Waiting => match disk.alloc3_desc() {
            Some(idx) => {
                let ghost before = *disk;
                disk.send_request(offset, req, idx, addrs);
                proof {
                    law_request_chain(before, *disk, *req, idx@, *addrs);
                }
                (Transfer::Sent(idx), TransferAction::Notify)
            },
            None => (Transfer::Waiting, TransferAction::WaitForDesc),
        },
        Transfer::Sent(idx) => {
            let first: u16 = idx[0];
            if disk.info[first as usize].in_progress {
                (Transfer::Sent(idx), TransferAction::WaitForCompletion(first))
            } else {
                disk.free_chain(first);
                (Transfer::Finished, TransferAction::Done)
            }
        },
        Transfer::Finished => (Transfer::Finished, TransferAction::Done),
    }
}

/// Whether a transfer has been taken one step further.
pub open spec fn transfer_step<const N: usize>(
    before: Disk<N>,
    after: Disk<N>,
    transfer: Transfer,
    offset: u64,
    req: Request,
    addrs: DmaAddrs,
    r: (Transfer, TransferAction),
) -> bool {
    match transfer {
        Transfer::Waiting => match r.0 {
            Transfer::Sent(idx) => {
                &&& r.1 == TransferAction::Notify
                &&& before.three_lowest(idx@)
                &&& after.free@ == taken(before.free@, idx@)
                &&& after.has_chain(idx@[0])
                &&& after.chain_from(idx@[0]) == idx@
                &&& request_sent(before, after, offset, req, idx@, addrs)
            },
            _ => {
                &&& r == (Transfer::Waiting, TransferAction::WaitForDesc)
                &&& forall|idx: Seq<u16>| !#[trigger] before.three_lowest(idx)
                &&& after.free@ == before.free@
                &&& after.desc@ == before.desc@
                &&& after.same_but_desc(before)
            },
        },
        Transfer::Sent(idx) => if before.info@[idx@[0] as int].in_progress {
            &&& r == (transfer, TransferAction::WaitForCompletion(idx@[0]))
            &&& after == before
        } else {
            &&& r == (Transfer::Finished, TransferAction::Done)
            &&& after.same_but_desc(before)
            &&& forall|d: int|
                0 <= d < N ==> #[trigger] after.free@[d] == (before.free@[d]
                    || before.chain_from(idx@[0]).contains(d as u16))
            &&& forall|d: int|
                0 <= d < N ==> #[trigger] after.desc@[d] == (if before.chain_from(
                    idx@[0],
                ).contains(d as u16) {
                    VirtqDesc::unused()
                } else {
                    before.desc@[d]
                })
        },
        Transfer::Finished => {
            &&& r == (Transfer::Finished, TransferAction::Done)
            &&& after == before
        },
    }
}

/// A transfer waits for descriptors only where fewer than three are free, and nothing
/// changes then. Otherwise it takes three that are free, and the device is told.
pub proof fn law_transfer_begins<const N: usize>(
    before: Disk<N>,
    after: Disk<N>,
    offset: u64,
    req: Request,
    addrs: DmaAddrs,
    r: (Transfer, TransferAction),
    a: int,
    b: int,
    c: int,
)
    requires
        before.wf(),
        transfer_step(before, after, Transfer::Waiting, offset, req, addrs, r),
    ensures
        0 <= a < b < c < N && before.free@[a] && before.free@[b] && before.free@[c]
            ==> r.0 is Sent,
        !(r.0 is Finished),
        match r.0 {
            Transfer::Sent(idx) => {
                &&& r.1 is Notify
                &&& idx@[0] != idx@[1] && idx@[1] != idx@[2] && idx@[0] != idx@[2]
                &&& forall|k: int|
                    0 <= k < 3 ==> {
                        &&& #[trigger] idx@[k] < N
                        &&& before.free@[idx@[k] as int]
                        &&& !after.free@[idx@[k] as int]
                    }
                &&& forall|d: int|
                    0 <= d < N && d != idx@[0] && d != idx@[1] && d != idx@[2]
                        ==> #[trigger] after.free@[d] == before.free@[d]
            },
            _ => {
                &&& r.1 is WaitForDesc
                &&& after.free@ == before.free@
                &&& after.desc@ == before.desc@
                &&& after.avail_idx == before.avail_idx
            },
        },
{
    if 0 <= a < b < c < N && before.free@[a] && before.free@[b] && before.free@[c] {
        lemma_three_free(before, a, b, c);
    }
}

/// The lowest descriptor from `from` up to `d` that is free.
proof fn lemma_lowest_free(free: Seq<bool>, from: int, d: int) -> (r: int)
    requires
        0 <= from <= d < free.len(),
        free[d],
    ensures
        from <= r <= d,
        free[r],
        forall|j: int| from <= j < r ==> !#[trigger] free[j],
    decreases d - from,
{
    if free[from] {
        from
    } else {
        lemma_lowest_free(free, from + 1, d)
    }
}

/// Where three descriptors are free, there are three lowest ones.
proof fn lemma_three_free<const N: usize>(disk: Disk<N>, a: int, b: int, c: int)
    requires
        disk.wf(),
        0 <= a < b < c < N,
        disk.free@[a] && disk.free@[b] && disk.free@[c],
    ensures
        exists|idx: Seq<u16>| #[trigger] disk.three_lowest(idx),
{
    let x = lemma_lowest_free(disk.free@, 0, a);
    let y = lemma_lowest_free(disk.free@, x + 1, b);
    let z = lemma_lowest_free(disk.free@, y + 1, c);
    let idx = seq![x as u16, y as u16, z as u16];
    assert(disk.three_lowest(idx));
}

/// A transfer ends when its operation is no longer in progress, and not before: until
/// then nothing changes. Once it has ended, all descriptors are free and described as
/// they were before it began, whatever the device has done meanwhile.
pub proof fn law_transfer_ends<const N: usize>(
    before: Disk<N>,
    sent: Disk<N>,
    waiting: Disk<N>,
    after: Disk<N>,
    offset: u64,
    req: Request,
    addrs: DmaAddrs,
    idx: [u16; 3],
    first: (Transfer, TransferAction),
    last: (Transfer, TransferAction),
)
    requires
        before.wf(),
        sent.wf(),
        waiting.wf(),
        after.wf(),
        transfer_step(before, sent, Transfer::Waiting, offset, req, addrs, first),
        first.0 == Transfer::Sent(idx),
        waiting.free == sent.free,
        waiting.desc == sent.desc,
        transfer_step(waiting, after, first.0, offset, req, addrs, last),
    ensures
        sent.info@[idx@[0] as int].in_progress,
        waiting.info@[idx@[0] as int].in_progress ==> {
            &&& last.0 == first.0
            &&& last.1 == TransferAction::WaitForCompletion(idx@[0])
            &&& after == waiting
        },
        !waiting.info@[idx@[0] as int].in_progress ==> {
            &&& last.0 is Finished
            &&& last.1 is Done
            &&& after.free@ == before.free@
            &&& after.desc@ == before.desc@
            &&& after.info == waiting.info
        },
{
    if !waiting.info@[idx@[0] as int].in_progress {
        let had = waiting.chain_from(idx@[0]);
        assert(waiting.is_chain(idx@)) by {
            assert(sent.is_chain(idx@)) by {
                sent.lemma_one_chain(sent.chain_from(idx@[0]), idx@);
            }
            assert forall|k: int| 0 <= k < idx@.len() implies {
                &&& #[trigger] idx@[k] < N
                &&& !waiting.free@[idx@[k] as int]
                &&& waiting.desc@[idx@[k] as int].flags.next == (k + 1 < idx@.len())
                &&& k + 1 < idx@.len() ==> waiting.desc@[idx@[k] as int].next == idx@[k + 1]
            } by {}
        }
        waiting.lemma_one_chain(had, idx@);
        law_transfer_returns_descriptors(before, waiting, after, req, idx@, addrs);
    }
}

/// Which descriptors are free after three have been taken.
pub open spec fn taken(free: Seq<bool>, idx: Seq<u16>) -> Seq<bool> {
    free.update(idx[0] as int, false).update(idx[1] as int, false).update(idx[2] as int, false)
}

/// The descriptors of a request make up a chain, in the order in which they were
/// given.
pub proof fn law_request_chain<const N: usize>(
    before: Disk<N>,
    after: Disk<N>,
    req: Request,
    idx: Seq<u16>,
    addrs: DmaAddrs,
)
    requires
        before.wf(),
        before.can_send(idx),
        after.free == before.free,
        after.desc@ == sent_desc(before.desc@, req, idx, addrs),
    ensures
        after.is_chain(idx),
        after.has_chain(idx[0]),
        after.chain_from(idx[0]) == idx,
{
    assert(after.desc@[idx[0] as int].next == idx[1]);
    assert(after.desc@[idx[1] as int].next == idx[2]);
    assert(!after.desc@[idx[2] as int].flags.next);
    assert forall|k: int| 0 <= k < idx.len() implies {
        &&& #[trigger] idx[k] < N
        &&& !after.free@[idx[k] as int]
        &&& after.desc@[idx[k] as int].flags.next == (k + 1 < idx.len())
        &&& k + 1 < idx.len() ==> after.desc@[idx[k] as int].next == idx[k + 1]
    } by {
        assert(k == 0 || k == 1 || k == 2);
    }
    assert(idx.no_duplicates()) by {
        assert forall|i: int, j: int| 0 <= i < idx.len() && 0 <= j < idx.len() && i != j implies idx[i]
            != idx[j] by {
            assert(i == 0 || i == 1 || i == 2);
            assert(j == 0 || j == 1 || j == 2);
        }
    }
    assert(after.is_chain(idx));
    after.lemma_one_chain(after.chain_from(idx[0]), idx);
}

/// A transfer that is done has given back the descriptors that it took: exactly
/// those are free that were free before it, and all descriptors are as before.
pub proof fn law_transfer_returns_descriptors<const N: usize>(
    before: Disk<N>,
    sent: Disk<N>,
    after: Disk<N>,
    req: Request,
    idx: Seq<u16>,
    addrs: DmaAddrs,
)
    requires
        before.wf(),
        sent.wf(),
        after.wf(),
        before.three_lowest(idx),
        sent.free@ == taken(before.free@, idx),
        sent.desc@ == sent_desc(before.desc@, req, idx, addrs),
        sent.chain_from(idx[0]) == idx,
        forall|d: int|
            0 <= d < N ==> #[trigger] after.free@[d] == (sent.free@[d] || sent.chain_from(
                idx[0],
            ).contains(d as u16)),
        forall|d: int|
            0 <= d < N ==> #[trigger] after.desc@[d] == (if sent.chain_from(idx[0]).contains(
                d as u16,
            ) {
                VirtqDesc::unused()
            } else {
                sent.desc@[d]
            }),
    ensures
        after.free@ == before.free@,
        after.desc@ == before.desc@,
{
    assert forall|d: int| 0 <= d < N implies after.free@[d] == before.free@[d] && after.desc@[d]
        == before.desc@[d] by {
        let c = d as u16;
        assert(idx.contains(c) <==> c == idx[0] || c == idx[1] || c == idx[2]) by {
            if idx.contains(c) {
                let k = idx.index_of(c);
                assert(k == 0 || k == 1 || k == 2);
            }
            assert(idx.contains(idx[0]) && idx.contains(idx[1]) && idx.contains(idx[2]));
        }
        assert(sent.free@[d] == taken(before.free@, idx)[d]);
    }
    assert(after.free@ =~= before.free@);
    assert(after.desc@ =~= before.desc@);
}

/// Whether note has been taken of the operations that the device has finished: `done`
/// are their first descriptors, as they stand in its ring.
pub open spec fn completed<const N: usize>(
    before: Disk<N>,
    after: Disk<N>,
    device_idx: u16,
    ring: Seq<u32>,
    done: Seq<u32>,
) -> bool {
    &&& after.used_idx == device_idx
    &&& done.len() == before.pending(device_idx)
    &&& forall|k: int| 0 <= k < done.len() ==> #[trigger] done[k] == before.used_entry(ring, k)
    &&& after.info@.len() == before.info@.len()
    &&& forall|d: int|
        0 <= d < N ==> #[trigger] after.info@[d] == (if done.contains(d as u32) {
            TrackInfo { status: 0, in_progress: false }
        } else {
            before.info@[d]
        })
}

/// If the device has added nothing to its ring, nothing is done. If it has added one
/// entry, the operation at which that entry points is done, and no other one.
pub proof fn law_completion<const N: usize>(
    before: Disk<N>,
    after: Disk<N>,
    device_idx: u16,
    ring: Seq<u32>,
    done: Seq<u32>,
)
    requires
        before.wf(),
        ring.len() == N,
        completed(before, after, device_idx, ring, done),
        ring[before.used_idx as int % N as int] < N,
    ensures
        after.used_idx == device_idx,
        device_idx == before.used_idx ==> done.len() == 0 && after.info@ == before.info@,
        (device_idx - before.used_idx - 1) % 0x1_0000 == 0 ==> {
            let d = ring[before.used_idx as int % N as int];
            &&& done == seq![d]
            &&& !after.info@[d as int].in_progress
            &&& after.info@[d as int].status == 0
            &&& forall|e: int|
                0 <= e < N && e != d ==> #[trigger] after.info@[e] == before.info@[e]
        },
{
    if device_idx == before.used_idx {
        assert(after.info@ =~= before.info@);
    }
    if (device_idx - before.used_idx - 1) % 0x1_0000 == 0 {
        let d = ring[before.used_idx as int % N as int];
        assert(before.pending(device_idx) == 1);
        assert(done[0] == before.used_entry(ring, 0));
        assert(done =~= seq![d]);
        assert(done.contains(d)) by {
            assert(done[0] == d);
        }
        assert(after.info@[d as int] == TrackInfo { status: 0, in_progress: false });
    }
}

/// It does not matter whether the device is looked at once or twice: the operations that
/// are done are the same, in the same order.
pub proof fn law_completions_add_up<const N: usize>(
    before: Disk<N>,
    mid: Disk<N>,
    after: Disk<N>,
    at_once: Disk<N>,
    mid_idx: u16,
    device_idx: u16,
    ring: Seq<u32>,
    first: Seq<u32>,
    second: Seq<u32>,
    all: Seq<u32>,
)
    requires
        before.wf(),
        (mid_idx - before.used_idx) % 0x1_0000 <= (device_idx - before.used_idx) % 0x1_0000,
        completed(before, mid, mid_idx, ring, first),
        completed(mid, after, device_idx, ring, second),
        completed(before, at_once, device_idx, ring, all),
    ensures
        all == first + second,
        after.info@ == at_once.info@,
        after.used_idx == at_once.used_idx,
{
    let n = first.len() as int;
    assert(all.len() == first.len() + second.len());
    assert forall|k: int| 0 <= k < all.len() implies all[k] == (first + second)[k] by {
        assert(all[k] == before.used_entry(ring, k));
        if k < n {
            assert(first[k] == before.used_entry(ring, k));
        } else {
            assert(second[k - n] == mid.used_entry(ring, k - n));
            assert((mid.used_idx + (k - n)) % 0x1_0000 == (before.used_idx + k) % 0x1_0000);
        }
    }
    assert(all =~= first + second);
    assert forall|d: int| 0 <= d < N implies after.info@[d] == at_once.info@[d] by {
        let c = d as u32;
        assert(all.contains(c) <==> first.contains(c) || second.contains(c)) by {
            if first.contains(c) {
                assert(all[first.index_of(c)] == c);
            }
            if second.contains(c) {
                assert(all[n + second.index_of(c)] == c);
            }
            if all.contains(c) {
                let k = all.index_of(c);
                if k < n {
                    assert(first[k] == c);
                } else {
                    assert(second[k - n] == c);
                }
            }
        }
        assert(mid.info@[d] == mid.info@[d]);
    }
    assert(after.info@ =~= at_once.info@);
}

/// What is done about an interrupt of the device.
pub struct InterruptOutcome {
    /// What to write to the register that acknowledges the interrupt.
    pub ack: u32,
    /// The descriptors whose operations are done.
    pub done: Vec<u32>,
}

/// What to write to the register that acknowledges an interrupt, where `status` is what
/// the interrupt register holds.
pub fn interrupt_ack(status: u32) -> (r: u32)
    ensures
        r == status & 0x3,
        r == status % 4,
{
    assert(status & 0x3 == status % 4) by (bit_vector);
    status & 0x3
}

/// Handles an interrupt of the device: `status` is what its interrupt register
/// holds, the rest as for [`Disk::handle_interrupt`].
pub fn handle_interrupt<const N: usize>(
    disk: &mut Disk<N>,
    status: u32,
    device_idx: u16,
    used_ring: &[u32],
    statuses: &[u8],
) -> (r: InterruptOutcome)
    requires
        old(disk).wf(),
        used_ring@.len() == N,
        statuses@.len() == N,
        forall|k: int|
            0 <= k < old(disk).pending(device_idx) ==> {
                &&& #[trigger] old(disk).used_entry(used_ring@, k) < N
                &&& statuses@[old(disk).used_entry(used_ring@, k)] == 0
            },
    ensures
        r.ack == status & 0x3,
        r.ack == status % 4,
        final(disk).wf(),
        final(disk).used_idx == device_idx,
        final(disk).desc == old(disk).desc,
        final(disk).free == old(disk).free,
        final(disk).ops == old(disk).ops,
        final(disk).avail_ring == old(disk).avail_ring,
        final(disk).avail_idx == old(disk).avail_idx,
        r.done@.len() == old(disk).pending(device_idx),
        forall|k: int|
            0 <= k < r.done@.len() ==> #[trigger] r.done@[k] == old(disk).used_entry(used_ring@, k),
        forall|d: int|
            0 <= d < N ==> #[trigger] final(disk).info@[d] == (if r.done@.contains(d as u32) {
                TrackInfo { status: 0, in_progress: false }
            } else {
                old(disk).info@[d]
            }),
        completed(*old(disk), *final(disk), device_idx, used_ring@, r.done@),
{
    let done: Vec<u32> = disk.handle_interrupt(device_idx, used_ring, statuses);
    InterruptOutcome { ack: interrupt_ack(status), done }
}

/// Where the queue lies in memory.
#[derive(Debug, Clone, Copy, PartialEq, Eq, Structural)]
pub struct QueueLayout {
    pub desc: u64,
    pub avail: u64,
    pub used: u64,
}

/// Why a device cannot be used.
#[derive(Debug, Clone, Copy, PartialEq, Eq, Structural)]
pub enum InitError {
    WrongMagicValue(u32),
    WrongVersion(u32),
    WrongDeviceId(u32),
    WrongVendorId(u32),
    FeaturesRefused,
    QueueInUse,
    NoQueue,
    QueueTooShort(u32),
}

/// One access to a register of the device while it is being set up.
#[derive(Debug, Clone, Copy, PartialEq, Eq, Structural)]
pub enum InitAction {
    Read(MmioRegister),
    Write(MmioRegister, u32),
    Done,
    Fail(InitError),
}

/// How far the setup has got.
#[derive(Debug, Clone, Copy, PartialEq, Eq, Structural)]
pub struct InitState {
    /// How many accesses have been made.
    pub step: u8,
    /// The status of the device.
    pub status: u32,
}

/// The features that the driver uses of those that the device has.
pub open spec fn negotiated(features: u32) -> u32 {
    features & !UNUSED_FEATURES
}

/// What follows on the accesses so far, where the last one, if it was to read,
/// gave `value`, and the queue has `num` descriptors.
pub open spec fn init_action(
    state: InitState,
    value: u32,
    queue: QueueLayout,
    num: u32,
) -> InitAction {
    let status = state.status;
    match state.step {
        0 => InitAction::Read(MmioRegister::MagicValue),
        1 => if value == 0x7472_6976 {
            InitAction::Read(MmioRegister::Version)
        } else {
            InitAction::Fail(InitError::WrongMagicValue(value))
        },
        2 => if value == 2 {
            InitAction::Read(MmioRegister::DeviceId)
        } else {
            InitAction::Fail(InitError::WrongVersion(value))
        },
        3 => if value == 2 {
            InitAction::Read(MmioRegister::VendorId)
        } else {
            InitAction::Fail(InitError::WrongDeviceId(value))
        },
        4 => if value == 0x554d_4551 {
            InitAction::Write(MmioRegister::Status, 0)
        } else {
            InitAction::Fail(InitError::WrongVendorId(value))
        },
        5 => InitAction::Write(MmioRegister::Status, STATUS_ACKNOWLEDGE),
        6 => InitAction::Write(MmioRegister::Status, STATUS_ACKNOWLEDGE | STATUS_DRIVER),
        7 => InitAction::Read(MmioRegister::DeviceFeatures),
        8 => InitAction::Write(MmioRegister::DriverFeatures, negotiated(value)),
        9 => InitAction::Write(
            MmioRegister::Status,
            STATUS_ACKNOWLEDGE | STATUS_DRIVER | STATUS_FEATURES_OK,
        ),
        10 => InitAction::Read(MmioRegister::Status),
        11 => if value & STATUS_FEATURES_OK == STATUS_FEATURES_OK {
            InitAction::Write(MmioRegister::QueueSel, 0)
        } else {
            InitAction::Fail(InitError::FeaturesRefused)
        },
        12 => InitAction::Read(MmioRegister::QueueReady),
        13 => if value == 0 {
            InitAction::Read(MmioRegister::QueueNumMax)
        } else {
            InitAction::Fail(InitError::QueueInUse)
        },
        14 => if value == 0 {
            InitAction::Fail(InitError::NoQueue)
        } else if value < num {
            InitAction::Fail(InitError::QueueTooShort(value))
        } else {
            InitAction::Write(MmioRegister::QueueNum, num)
        },
        15 => InitAction::Write(MmioRegister::QueueDescLow, (queue.desc % 0x1_0000_0000) as u32),
        16 => InitAction::Write(MmioRegister::QueueDescHigh, (queue.desc / 0x1_0000_0000) as u32),
        17 => InitAction::Write(MmioRegister::DriverDescLow, (queue.avail % 0x1_0000_0000) as u32),
        18 => InitAction::Write(MmioRegister::DriverDescHigh, (queue.avail / 0x1_0000_0000) as u32),
        19 => InitAction::Write(MmioRegister::DeviceDescLow, (queue.used % 0x1_0000_0000) as u32),
        20 => InitAction::Write(MmioRegister::DeviceDescHigh, (queue.used / 0x1_0000_0000) as u32),
        21 => InitAction::Write(MmioRegister::QueueReady, 1),
        22 => InitAction::Write(MmioRegister::Status, status | STATUS_DRIVER_OK),
        _ => InitAction::Done,
    }
}

/// How far the setup has got after the next access, where the last one gave `value`.
pub open spec fn init_next(state: InitState, value: u32) -> InitState {
    InitState {
        step: if state.step < 23 {
            (state.step + 1) as u8
        } else {
            state.step
        },
        status: if state.step == 11 {
            value
        } else {
            state.status
        },
    }
}

impl InitState {
    /// The setup before the first access.
    pub fn new() -> (r: Self)
        ensures
            r == (InitState { step: 0, status: 0 }),
    {
        InitState { step: 0, status: 0 }
    }

    /// Sets the device up, one access at a time: returns the next one, given what
    /// the last one gave if it was to read. The queue has `N` descriptors.
    pub fn init<const N: usize>(&mut self, value: u32, queue: &QueueLayout) -> (r: InitAction)
        requires
            N <= u16::MAX,
        ensures
            r == init_action(*old(self), value, *queue, N as u32),
            final(self).step == (if old(self).step < 23 {
                (old(self).step + 1) as u8
            } else {
                old(self).step
            }),
            final(self).status == (if old(self).step == 11 {
                value
            } else {
                old(self).status
            }),
            *final(self) == init_next(*old(self), value),
    {
        let step: u8 = self.step;
        if step < 23 {
            self.step = step + 1;
        }
        if step == 11 {
            self.status = value;
        }
        if step < 5 {
            identify(step, value)
        } else if step < 12 {
            agree(step, value)
        } else {
            set_up_queue(step, self.status, value, queue, N as u32)
        }
    }
}

/// The accesses that find out whether the device is a disk.
fn identify(step: u8, value: u32) -> (r: InitAction)
    requires
        step < 5,
    ensures
        forall|status: u32, queue: QueueLayout, num: u32|
            r == #[trigger] init_action(InitState { step, status }, value, queue, num),
{
    if step == 0 {
        InitAction::Read(MmioRegister::MagicValue)
    } else if step == 1 {
        if value == 0x7472_6976 {
            InitAction::Read(MmioRegister::Version)
        } else {
            InitAction::Fail(InitError::WrongMagicValue(value))
        }
    } else if step == 2 {
        if value == 2 {
            InitAction::Read(MmioRegister::DeviceId)
        } else {
            InitAction::Fail(InitError::WrongVersion(value))
        }
    } else if step == 3 {
        if value == 2 {
            InitAction::Read(MmioRegister::VendorId)
        } else {
            InitAction::Fail(InitError::WrongDeviceId(value))
        }
    } else if value == 0x554d_4551 {
        // reset the device
        InitAction::Write(MmioRegister::Status, 0)
    } else {
        InitAction::Fail(InitError::WrongVendorId(value))
    }
}

/// The accesses by which driver and device agree on features.
fn agree(step: u8, value: u32) -> (r: InitAction)
    requires
        5 <= step < 12,
    ensures
        forall|status: u32, queue: QueueLayout, num: u32|
            r == #[trigger] init_action(InitState { step, status }, value, queue, num),
{
    if step == 5 {
        InitAction::Write(MmioRegister::Status, STATUS_ACKNOWLEDGE)
    } else if step == 6 {
        InitAction::Write(MmioRegister::Status, STATUS_ACKNOWLEDGE | STATUS_DRIVER)
    } else if step == 7 {
        InitAction::Read(MmioRegister::DeviceFeatures)
    } else if step == 8 {
        InitAction::Write(MmioRegister::DriverFeatures, value & !UNUSED_FEATURES)
    } else if step == 9 {
        InitAction::Write(
            MmioRegister::Status,
            STATUS_ACKNOWLEDGE | STATUS_DRIVER | STATUS_FEATURES_OK,
        )
    } else if step == 10 {
        InitAction::Read(MmioRegister::Status)
    } else if value & STATUS_FEATURES_OK == STATUS_FEATURES_OK {
        InitAction::Write(MmioRegister::QueueSel, 0)
    } else {
        InitAction::Fail(InitError::FeaturesRefused)
    }
}

/// The accesses that set the queue up.
fn set_up_queue(step: u8, status: u32, value: u32, queue: &QueueLayout, num: u32) -> (r: InitAction)
    requires
        12 <= step,
    ensures
        r == init_action(InitState { step, status }, value, *queue, num),
{
    if step == 12 {
        InitAction::Read(MmioRegister::QueueReady)
    } else if step == 13 {
        if value == 0 {
            InitAction::Read(MmioRegister::QueueNumMax)
        } else {
            InitAction::Fail(InitError::QueueInUse)
        }
    } else if step == 14 {
        if value == 0 {
            InitAction::Fail(InitError::NoQueue)
        } else if value < num {
            InitAction::Fail(InitError::QueueTooShort(value))
        } else {
            InitAction::Write(MmioRegister::QueueNum, num)
        }
    } else if step == 15 {
        InitAction::Write(MmioRegister::QueueDescLow, addr_low(queue.desc))
    } else if step == 16 {
        InitAction::Write(MmioRegister::QueueDescHigh, addr_high(queue.desc))
    } else if step == 17 {
        InitAction::Write(MmioRegister::DriverDescLow, addr_low(queue.avail))
    } else if step == 18 {
        InitAction::Write(MmioRegister::DriverDescHigh, addr_high(queue.avail))
    } else if step == 19 {
        InitAction::Write(MmioRegister::DeviceDescLow, addr_low(queue.used))
    } else if step == 20 {
        InitAction::Write(MmioRegister::DeviceDescHigh, addr_high(queue.used))
    } else if step == 21 {
        InitAction::Write(MmioRegister::QueueReady, 1)
    } else if step == 22 {
        InitAction::Write(MmioRegister::Status, status | STATUS_DRIVER_OK)
    } else {
        InitAction::Done
    }
}

/// The driver accepts no feature that it does not use, and none that the device
/// does not have.
pub proof fn law_negotiated(features: u32)
    ensures
        negotiated(features) & UNUSED_FEATURES == 0,
        negotiated(features) & features == negotiated(features),
        UNUSED_FEATURES == BLK_RO | BLK_SCSI | BLK_CONFIG_WCE | BLK_MQ | ANY_LAYOUT
            | RING_EVENT_IDX | RING_INDIRECT_DESC,
{
    let unused = UNUSED_FEATURES;
    assert((features & !unused) & unused == 0 && (features & !unused) & features == features
        & !unused) by (bit_vector);
    assert(0x3800_18a0u32 == 0x20u32 | 0x80u32 | 0x800u32 | 0x1000u32 | 0x800_0000u32
        | 0x2000_0000u32 | 0x1000_0000u32) by (bit_vector);
}

/// What a register of the device holds after accesses, if one of them was to write it:
/// what was written last.
pub open spec fn last_written(actions: Seq<InitAction>, reg: MmioRegister) -> Option<u32>
    decreases actions.len(),
{
    if actions.len() == 0 {
        None
    } else {
        match actions.last() {
            InitAction::Write(to, value) if to == reg => Some(value),
            _ => last_written(actions.drop_last(), reg),
        }
    }
}

/// How far the setup of a device has got after `n` accesses, where `values` are what it
/// answers.
pub open spec fn set_up_to(values: Seq<u32>, n: nat) -> InitState
    decreases n,
{
    if n == 0 {
        InitState { step: 0, status: 0 }
    } else {
        init_next(set_up_to(values, (n - 1) as nat), values[n - 1])
    }
}

proof fn lemma_set_up_to(values: Seq<u32>, n: nat)
    requires
        n <= 23,
    ensures
        set_up_to(values, n) == (InitState {
            step: n as u8,
            status: if n > 11 {
                values[11]
            } else {
                0
            },
        }),
    decreases n,
{
    if n > 0 {
        lemma_set_up_to(values, (n - 1) as nat);
    }
}

/// The accesses by which a device is set up, where `values` are what it answers, as far
/// as an access was to read.
pub open spec fn setup(values: Seq<u32>, queue: QueueLayout, num: u32) -> Seq<InitAction> {
    Seq::new(
        values.len(),
        |k: int| init_action(set_up_to(values, k as nat), values[k], queue, num),
    )
}

/// What the accesses are.
proof fn lemma_setup(values: Seq<u32>, queue: QueueLayout, num: u32)
    requires
        values.len() == 23,
    ensures
        setup(values, queue, num).len() == 23,
        forall|k: int|
            0 <= k < 23 ==> #[trigger] setup(values, queue, num)[k] == init_action(
                InitState {
                    step: k as u8,
                    status: if k > 11 {
                        values[11]
                    } else {
                        0
                    },
                },
                values[k],
                queue,
                num,
            ),
{
    assert forall|k: int| 0 <= k < 23 implies #[trigger] setup(values, queue, num)[k]
        == init_action(
        InitState {
            step: k as u8,
            status: if k > 11 {
                values[11]
            } else {
                0
            },
        },
        values[k],
        queue,
        num,
    ) by {
        lemma_set_up_to(values, k as nat);
    }
}

/// A device on which the setup has not failed is a disk of the right kind, has a queue
/// that is free and long enough, and has been told all there is to know about the queue.
/// It is told that the driver is ready after everything else.
pub proof fn law_set_up(values: Seq<u32>, queue: QueueLayout, num: u32)
    requires
        values.len() == 23,
        forall|k: int| 0 <= k < 23 ==> !((#[trigger] setup(values, queue, num)[k]) is Fail),
    ensures
        ({
            let actions = setup(values, queue, num);
            let told = |reg: MmioRegister| last_written(actions, reg)->0;
            &&& forall|reg: MmioRegister|
                reg is QueueNum || reg is QueueReady || reg is QueueDescLow || reg is QueueDescHigh
                    || reg is DriverDescLow || reg is DriverDescHigh || reg is DeviceDescLow
                    || reg is DeviceDescHigh || reg is DriverFeatures || reg is Status
                    ==> #[trigger] last_written(actions, reg) is Some
            &&& told(MmioRegister::QueueNum) == num
            &&& told(MmioRegister::QueueReady) == 1
            &&& told(MmioRegister::QueueDescHigh) * 0x1_0000_0000 + told(
                MmioRegister::QueueDescLow,
            ) == queue.desc
            &&& told(MmioRegister::DriverDescHigh) * 0x1_0000_0000 + told(
                MmioRegister::DriverDescLow,
            ) == queue.avail
            &&& told(MmioRegister::DeviceDescHigh) * 0x1_0000_0000 + told(
                MmioRegister::DeviceDescLow,
            ) == queue.used
            &&& actions[22] == InitAction::Write(MmioRegister::Status, values[11] | 4)
            &&& forall|k: int|
                0 <= k < 22 ==> match #[trigger] actions[k] {
                    InitAction::Write(MmioRegister::Status, value) => value & 4 == 0,
                    _ => true,
                }
            &&& exists|k: int|
                0 <= k < 22 && #[trigger] actions[k] == InitAction::Read(MmioRegister::MagicValue)
                    && values[k + 1] == 0x7472_6976
            &&& exists|k: int|
                0 <= k < 22 && #[trigger] actions[k] == InitAction::Read(MmioRegister::Version)
                    && values[k + 1] == 2
            &&& exists|k: int|
                0 <= k < 22 && #[trigger] actions[k] == InitAction::Read(MmioRegister::DeviceId)
                    && values[k + 1] == 2
            &&& exists|k: int|
                0 <= k < 22 && #[trigger] actions[k] == InitAction::Read(MmioRegister::VendorId)
                    && values[k + 1] == 0x554d_4551
            &&& exists|k: int|
                0 <= k < 22 && #[trigger] actions[k] == InitAction::Read(MmioRegister::QueueReady)
                    && values[k + 1] == 0
            &&& exists|k: int|
                0 <= k < 22 && #[trigger] actions[k] == InitAction::Read(MmioRegister::QueueNumMax)
                    && values[k + 1] != 0 && values[k + 1] >= num
            &&& exists|k: int|
                {
                    &&& 0 <= k < 22
                    &&& #[trigger] actions[k] == InitAction::Read(MmioRegister::DeviceFeatures)
                    &&& told(MmioRegister::DriverFeatures) & !values[k + 1] == 0
                }
        }),
{
    let actions = setup(values, queue, num);
    lemma_setup(values, queue, num);
    assert(!(actions[1] is Fail) && !(actions[2] is Fail) && !(actions[3] is Fail) && !(actions[4]
        is Fail));
    assert(!(actions[11] is Fail) && !(actions[13] is Fail) && !(actions[14] is Fail));
    assert(actions.len() == 23);
    let f = values[8];
    let unused = UNUSED_FEATURES;
    assert((f & !unused) & !f == 0) by (bit_vector);
    assert(0u32 & 4 == 0 && 1u32 & 4 == 0 && (1u32 | 2u32) & 4 == 0 && (1u32 | 2u32 | 8u32) & 4
        == 0) by (bit_vector);
    assert(actions[0] == InitAction::Read(MmioRegister::MagicValue));
    assert(actions[1] == InitAction::Read(MmioRegister::Version));
    assert(actions[2] == InitAction::Read(MmioRegister::DeviceId));
    assert(actions[3] == InitAction::Read(MmioRegister::VendorId));
    assert(actions[7] == InitAction::Read(MmioRegister::DeviceFeatures));
    assert(actions[12] == InitAction::Read(MmioRegister::QueueReady));
    assert(actions[13] == InitAction::Read(MmioRegister::QueueNumMax));
    lemma_last_written(actions, MmioRegister::DriverFeatures, 8);
    lemma_last_written(actions, MmioRegister::QueueNum, 14);
    lemma_last_written(actions, MmioRegister::QueueDescLow, 15);
    lemma_last_written(actions, MmioRegister::QueueDescHigh, 16);
    lemma_last_written(actions, MmioRegister::DriverDescLow, 17);
    lemma_last_written(actions, MmioRegister::DriverDescHigh, 18);
    lemma_last_written(actions, MmioRegister::DeviceDescLow, 19);
    lemma_last_written(actions, MmioRegister::DeviceDescHigh, 20);
    lemma_last_written(actions, MmioRegister::QueueReady, 21);
    lemma_last_written(actions, MmioRegister::Status, 22);
    law_address_halves(queue.desc);
    law_address_halves(queue.avail);
    law_address_halves(queue.used);
}

/// Whether a register of a device that can be used may hold a value: the device is a disk
/// of the right kind that agrees to the features, and its queue is free and has at least
/// `num` places.
pub open spec fn fitting(reg: MmioRegister, value: u32, num: u32) -> bool {
    match reg {
        MmioRegister::MagicValue => value == 0x7472_6976,
        MmioRegister::Version => value == 2,
        MmioRegister::DeviceId => value == 2,
        MmioRegister::VendorId => value == 0x554d_4551,
        MmioRegister::Status => value & 8 == 8,
        MmioRegister::QueueReady => value == 0,
        MmioRegister::QueueNumMax => value != 0 && value >= num,
        _ => true,
    }
}

/// The setup fails on no device that can be used.
pub proof fn law_set_up_succeeds(values: Seq<u32>, queue: QueueLayout, num: u32)
    requires
        values.len() == 23,
        forall|k: int|
            0 <= k < 22 ==> match #[trigger] setup(values, queue, num)[k] {
                InitAction::Read(reg) => fitting(reg, values[k + 1], num),
                _ => true,
            },
    ensures
        forall|k: int|
            0 <= k < 23 ==> {
                &&& !((#[trigger] setup(values, queue, num)[k]) is Fail)
                &&& !(setup(values, queue, num)[k] is Done)
            },
        forall|value: u32|
            #[trigger] init_action(set_up_to(values, 23), value, queue, num) is Done,
{
    lemma_set_up_to(values, 23);
    let actions = setup(values, queue, num);
    lemma_setup(values, queue, num);
    assert(actions[0] == InitAction::Read(MmioRegister::MagicValue));
    assert(actions[1] == InitAction::Read(MmioRegister::Version));
    assert(actions[2] == InitAction::Read(MmioRegister::DeviceId));
    assert(actions[3] == InitAction::Read(MmioRegister::VendorId));
    assert(actions[10] == InitAction::Read(MmioRegister::Status));
    assert(actions[12] == InitAction::Read(MmioRegister::QueueReady));
    assert(actions[13] == InitAction::Read(MmioRegister::QueueNumMax));
}

/// What is written and not written again is what the register holds.
proof fn lemma_last_written(actions: Seq<InitAction>, reg: MmioRegister, k: int)
    requires
        0 <= k < actions.len(),
        actions[k] is Write,
        actions[k]->Write_0 == reg,
        forall|j: int|
            k < j < actions.len() ==> !((#[trigger] actions[j]) is Write && actions[j]->Write_0
                == reg),
    ensures
        last_written(actions, reg) == Some(actions[k]->Write_1),
    decreases actions.len(),
{
    if k < actions.len() - 1 {
        assert(actions.last() == actions[actions.len() - 1]);
        let front = actions.drop_last();
        assert forall|j: int| k < j < front.len() implies !((#[trigger] front[j]) is Write
            && front[j]->Write_0 == reg) by {
            assert(front[j] == actions[j]);
        }
        lemma_last_written(front, reg, k);
    }
}

/// The registers lie at different places, each in a word of its own within one page.
pub proof fn law_registers_apart(a: MmioRegister, b: MmioRegister)
    ensures
        a.place() % 4 == 0,
        a.place() < 0x100,
        a != b ==> a.place() != b.place(),
{
}

/// What freeing and taking descriptors leaves alone.
pub proof fn law_descriptors_only<const N: usize>(a: Disk<N>, b: Disk<N>)
    requires
        a.same_but_desc(b),
    ensures
        a == (Disk { desc: a.desc, free: a.free, ..b }),
{
}

/// A descriptor that is free describes nothing.
pub proof fn law_unused_descriptor<const N: usize>(disk: Disk<N>, i: int)
    requires
        disk.wf(),
        0 <= i < N,
        disk.free@[i],
    ensures
        disk.desc@[i].addr == 0,
        disk.desc@[i].len == 0,
        disk.desc@[i].next == 0,
        !disk.desc@[i].flags.next && !disk.desc@[i].flags.write,
{
}

} // verus!
