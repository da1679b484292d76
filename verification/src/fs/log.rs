//! Simple logging that allows concurrent file system calls.
//!
//! A log transaction contains the updates of multiple file system calls. The
//! logging system only commits when there are no file system calls active. Thus
//! there is never any reasoning required about whether a commit might write an
//! uncommitted system call's data to disk.
//!
//! A system call begins a transaction to mark its start and end. Usually that
//! just increments the count of calls in progress. But if it seems that the log
//! is close to running out, the call sleeps until the last outstanding
//! transaction commits.
//!
//! The log is a physical re-do log containing disk blocks. The on-disk format:
//!
//! ```text
//! header block, containing block numbers for block A, B, C, ...
//! block A
//! block B
//! block C
//! ...
//! ```
use crate::arrays::{
    block_slice, blocks_of, capacity_for_blocks, count_blocks, drain_blocks, new_blocks, push_block,
};
use crate::bytes::{le_bytes, le_number, lemma_le_bytes, push_le_u32, read_le_u32};
use arrayvec::ArrayVec;
use vstd::prelude::*;

verus! {

/// How many blocks the log can hold.
pub const LOG_SIZE: usize = 30;

/// How many blocks one file system call writes at most.
pub const MAX_OP_BLOCKS: usize = 10;

/// Bytes in a disk block.
pub const FS_BLOCK_SIZE: usize = 1024;

/// Where the log lies on the disk.
#[derive(Debug, Clone, Copy, PartialEq, Eq, Structural)]
pub struct SuperBlock {
    /// The number of the header block.
    pub log_start: u64,
    /// The number of blocks of the log, the header block among them.
    pub log_len: u64,
}

impl SuperBlock {
    /// Whether the log fits on a disk.
    pub open spec fn wf(self) -> bool {
        0 < self.log_len && self.log_start + self.log_len <= u64::MAX
    }

    /// How many blocks the log can hold.
    pub fn max_log_len(&self) -> (r: u64)
        requires
            self.wf(),
        ensures
            r == self.log_len - 1,
    {
        self.log_len - 1
    }

    /// The number of the header block.
    pub fn log_header_block(&self) -> (r: u64)
        ensures
            r == self.log_start,
    {
        self.log_start
    }

    /// The number of a block of the body.
    pub open spec fn body(self, i: int) -> int {
        self.log_start + 1 + i
    }

    /// Whether a block belongs to the log.
    pub open spec fn in_log(self, block: int) -> bool {
        self.log_start <= block < self.log_start + self.log_len
    }

    /// Returns the number of a block of the body.
    pub fn log_body_block(&self, i: u64) -> (r: u64)
        requires
            self.wf(),
            i < self.log_len - 1,
        ensures
            r == self.body(i as int),
    {
        self.log_start + 1 + i
    }
}

/// One access to the disk.
#[derive(Debug, PartialEq, Eq)]
pub enum LogAction {
    /// Writes what is cached of block `block` to block `slot` of the log.
    CopyToLog { block: u64, slot: u64 },
    /// Writes the header block: the numbers of the blocks in the log.
    WriteHead { blocks: Vec<u64> },
    /// Copies block `slot` of the log to its home location `block`.
    CopyHome { slot: u64, block: u64 },
}

/// What a [`LogAction`] stands for.
pub enum Action {
    CopyToLog { block: u64, slot: u64 },
    WriteHead { blocks: Seq<u64> },
    CopyHome { slot: u64, block: u64 },
}

impl LogAction {
    pub open spec fn view(&self) -> Action {
        match self {
            LogAction::CopyToLog { block, slot } => Action::CopyToLog {
                block: *block,
                slot: *slot,
            },
            LogAction::WriteHead { blocks } => Action::WriteHead { blocks: blocks@ },
            LogAction::CopyHome { slot, block } => Action::CopyHome { slot: *slot, block: *block },
        }
    }
}

/// What a list of actions stands for.
pub open spec fn actions(list: Seq<LogAction>) -> Seq<Action> {
    Seq::new(list.len(), |i: int| list[i]@)
}

/// Writing the blocks to the body of the log.
pub open spec fn write_body(sb: SuperBlock, blocks: Seq<u64>) -> Seq<Action> {
    Seq::new(
        blocks.len(),
        |i: int| Action::CopyToLog { block: blocks[i], slot: sb.body(i) as u64 },
    )
}

/// Copying the blocks from the body of the log to their home locations.
pub open spec fn install(sb: SuperBlock, blocks: Seq<u64>) -> Seq<Action> {
    Seq::new(
        blocks.len(),
        |i: int| Action::CopyHome { slot: sb.body(i) as u64, block: blocks[i] },
    )
}

/// Writing the header.
pub open spec fn write_head(blocks: Seq<u64>) -> Seq<Action> {
    seq![Action::WriteHead { blocks }]
}

/// What a commit does: it writes the body and then the header, which is the
/// point at which the transaction takes effect; then it installs the blocks and
/// erases the transaction from the log.
pub open spec fn commit_actions(sb: SuperBlock, blocks: Seq<u64>) -> Seq<Action> {
    if blocks.len() == 0 {
        seq![]
    } else {
        write_body(sb, blocks) + write_head(blocks) + install(sb, blocks) + write_head(seq![])
    }
}

/// What a recovery does, given the header that it finds.
pub open spec fn recover_actions(sb: SuperBlock, blocks: Seq<u64>) -> Seq<Action> {
    install(sb, blocks) + write_head(seq![])
}

/// The blocks with one more among them.
pub open spec fn with_block(blocks: Seq<u64>, block: u64) -> Seq<u64> {
    if blocks.contains(block) {
        blocks
    } else {
        blocks.push(block)
    }
}

/// The first `n` of the blocks, each only where it occurs first.
pub open spec fn distinct(blocks: Seq<u64>, n: nat) -> Seq<u64>
    decreases n,
{
    if n == 0 || n > blocks.len() {
        seq![]
    } else {
        with_block(distinct(blocks, (n - 1) as nat), blocks[n - 1])
    }
}

/// Blocks that occur once each are all kept.
pub proof fn lemma_distinct(blocks: Seq<u64>, n: nat)
    requires
        blocks.no_duplicates(),
        n <= blocks.len(),
    ensures
        distinct(blocks, n) == blocks.take(n as int),
    decreases n,
{
    if n > 0 {
        lemma_distinct(blocks, (n - 1) as nat);
        assert(blocks.take(n as int) =~= blocks.take(n - 1).push(blocks[n - 1]));
        if blocks.take(n - 1).contains(blocks[n - 1]) {
            let i = blocks.take(n - 1).index_of(blocks[n - 1]);
            assert(blocks[i] == blocks[n - 1]);
        }
    } else {
        assert(blocks.take(0) =~= seq![]);
    }
}

/// The blocks that the current transaction has changed.
pub struct LogHeader {
    sb: SuperBlock,
    blocks: ArrayVec<u64, 30>,
}

impl LogHeader {
    /// Where the log lies.
    pub closed spec fn sb(self) -> SuperBlock {
        self.sb
    }

    /// The blocks, in the order in which they were changed first.
    pub closed spec fn blocks(self) -> Seq<u64> {
        blocks_of(self.blocks)
    }

    /// The log fits on a disk, its blocks fit in memory, and no block is listed
    /// twice.
    pub open spec fn wf(self) -> bool {
        &&& self.sb().wf()
        &&& self.sb().log_len - 1 <= LOG_SIZE
        &&& self.blocks().no_duplicates()
        &&& self.blocks().len() <= self.sb().log_len - 1
    }

    /// A transaction that has changed nothing.
    pub fn new(sb: SuperBlock) -> (r: Self)
        requires
            sb.wf(),
            LOG_SIZE >= sb.log_len - 1,
        ensures
            r.wf(),
            r.sb() == sb,
            r.blocks() == Seq::<u64>::empty(),
    {
        LogHeader { sb, blocks: new_blocks() }
    }

    /// How many blocks there is room for in memory.
    pub fn max_len(&self) -> (r: usize)
        ensures
            r == LOG_SIZE,
    {
        capacity_for_blocks(&self.blocks)
    }

    /// How many blocks have been changed.
    pub fn len(&self) -> (r: usize)
        ensures
            r == self.blocks().len(),
            r <= LOG_SIZE,
    {
        count_blocks(&self.blocks)
    }

    /// Adds a block that has been changed, unless it is there already.
    pub fn push(&mut self, block: u64)
        requires
            old(self).wf(),
            old(self).blocks().len() < old(self).sb().log_len - 1,
        ensures
            final(self).wf(),
            final(self).sb() == old(self).sb(),
            final(self).blocks() == with_block(old(self).blocks(), block),
    {
        let blocks: &[u64] = block_slice(&self.blocks);
        let mut i: usize = 0;
        let mut found: bool = false;
        while i < blocks.len()
            invariant
                i <= blocks@.len(),
                found == blocks@.take(i as int).contains(block),
            decreases blocks@.len() - i,
        {
            assert(blocks@.take(i + 1) =~= blocks@.take(i as int).push(blocks@[i as int]));
            proof {
                let before = blocks@.take(i as int);
                let after = blocks@.take(i + 1);
                if before.contains(block) {
                    let k = before.index_of(block);
                    assert(after[k] == block);
                }
                if blocks@[i as int] == block {
                    assert(after[i as int] == block);
                }
                if after.contains(block) && blocks@[i as int] != block {
                    let k = after.index_of(block);
                    assert(before[k] == block);
                }
            }
            if blocks[i] == block {
                found = true;
            }
            i = i + 1;
        }
        assert(blocks@.take(blocks@.len() as int) =~= blocks@);
        if !found {
            push_block(&mut self.blocks, block);
        }
    }

    /// The actions that write the changed blocks to the body of the log.
    fn write_log_body(&self, out: &mut Vec<LogAction>)
        requires
            self.wf(),
        ensures
            actions(final(out)@) == actions(old(out)@) + write_body(self.sb(), self.blocks()),
    {
        let blocks: &[u64] = block_slice(&self.blocks);
        let ghost before = actions(out@);
        let ghost all = write_body(self.sb(), self.blocks());
        let mut i: usize = 0;
        assert(before + all.take(0) =~= before);
        while i < blocks.len()
            invariant
                self.wf(),
                blocks@ == self.blocks(),
                i <= blocks@.len(),
                all == write_body(self.sb(), self.blocks()),
                actions(out@) == before + all.take(i as int),
            decreases blocks@.len() - i,
        {
            let ghost so_far = out@;
            out.push(
                LogAction::CopyToLog { block: blocks[i], slot: self.sb.log_body_block(i as u64) },
            );
            i = i + 1;
            assert(actions(out@) =~= actions(so_far).push(all[i - 1]));
            assert(actions(out@) =~= before + all.take(i as int));
        }
        assert(all.take(all.len() as int) =~= all);
    }

    /// The action that writes the header: the point at which the current
    /// transaction commits.
    fn write_log_head(&self, out: &mut Vec<LogAction>)
        ensures
            actions(final(out)@) == actions(old(out)@) + write_head(self.blocks()),
    {
        let blocks: &[u64] = block_slice(&self.blocks);
        let mut list: Vec<u64> = Vec::new();
        let mut i: usize = 0;
        while i < blocks.len()
            invariant
                i <= blocks@.len(),
                list@ == blocks@.take(i as int),
            decreases blocks@.len() - i,
        {
            list.push(blocks[i]);
            i = i + 1;
            assert(list@ =~= blocks@.take(i as int));
        }
        assert(blocks@.take(blocks@.len() as int) =~= blocks@);
        let ghost before = out@;
        out.push(LogAction::WriteHead { blocks: list });
        assert(actions(out@) =~= actions(before) + write_head(self.blocks()));
    }

    /// The actions that copy committed blocks from the log to their home
    /// locations. The list of blocks is empty afterwards.
    fn install_transaction(&mut self, out: &mut Vec<LogAction>)
        requires
            old(self).wf(),
        ensures
            final(self).wf(),
            final(self).sb() == old(self).sb(),
            final(self).blocks() == Seq::<u64>::empty(),
            actions(final(out)@) == actions(old(out)@) + install(
                old(self).sb(),
                old(self).blocks(),
            ),
    {
        let ghost before = actions(out@);
        let ghost all = install(self.sb(), self.blocks());
        let sb: SuperBlock = self.sb;
        let blocks: Vec<u64> = drain_blocks(&mut self.blocks);
        let mut i: usize = 0;
        assert(before + all.take(0) =~= before);
        while i < blocks.len()
            invariant
                sb.wf(),
                blocks@.len() <= sb.log_len - 1,
                i <= blocks@.len(),
                all == install(sb, blocks@),
                actions(out@) == before + all.take(i as int),
            decreases blocks@.len() - i,
        {
            let ghost so_far = out@;
            out.push(LogAction::CopyHome { slot: sb.log_body_block(i as u64), block: blocks[i] });
            i = i + 1;
            assert(actions(out@) =~= actions(so_far).push(all[i - 1]));
            assert(actions(out@) =~= before + all.take(i as int));
        }
        assert(all.take(all.len() as int) =~= all);
    }

    /// The actions that commit the transaction. It has changed nothing afterwards.
    pub fn commit(&mut self) -> (r: Vec<LogAction>)
        requires
            old(self).wf(),
        ensures
            final(self).wf(),
            final(self).sb() == old(self).sb(),
            final(self).blocks() == Seq::<u64>::empty(),
            actions(r@) == commit_actions(old(self).sb(), old(self).blocks()),
    {
        let mut out: Vec<LogAction> = Vec::new();
        assert(actions(out@) =~= seq![]);
        let ghost blocks = self.blocks();
        let ghost sb = self.sb();
        if self.len() > 0 {
            self.write_log_body(&mut out);
            self.write_log_head(&mut out);
            self.install_transaction(&mut out);
            self.write_log_head(&mut out);
            assert(actions(out@) =~= commit_actions(sb, blocks));
        } else {
            assert(self.blocks() =~= Seq::<u64>::empty());
        }
        out
    }

    /// Takes over the blocks that the header on the disk lists.
    fn read(&mut self, header: &[u32])
        requires
            old(self).wf(),
            old(self).blocks().len() == 0,
            header@.len() <= old(self).sb().log_len - 1,
        ensures
            final(self).wf(),
            final(self).sb() == old(self).sb(),
            final(self).blocks() == distinct(wide(header@), header@.len()),
    {
        let mut i: usize = 0;
        assert(self.blocks() =~= seq![]);
        while i < header.len()
            invariant
                self.wf(),
                self.sb() == old(self).sb(),
                header@.len() <= self.sb().log_len - 1,
                i <= header@.len(),
                self.blocks() == distinct(wide(header@), i as nat),
                self.blocks().len() <= i,
            decreases header@.len() - i,
        {
            self.push(header[i] as u64);
            i = i + 1;
        }
    }

    /// The actions that recover from a crash, given the header on the disk.
    pub fn recover_from_log(&mut self, header: &[u32]) -> (r: Vec<LogAction>)
        requires
            old(self).wf(),
            old(self).blocks().len() == 0,
            header@.len() <= old(self).sb().log_len - 1,
        ensures
            final(self).wf(),
            final(self).sb() == old(self).sb(),
            final(self).blocks() == Seq::<u64>::empty(),
            actions(r@) == recover_actions(
                old(self).sb(),
                distinct(wide(header@), header@.len()),
            ),
    {
        let mut out: Vec<LogAction> = Vec::new();
        assert(actions(out@) =~= seq![]);
        self.read(header);
        let ghost blocks = self.blocks();
        self.install_transaction(&mut out);
        self.write_log_head(&mut out);
        assert(actions(out@) =~= recover_actions(self.sb(), blocks));
        out
    }
}

/// Block numbers as they are in memory.
pub open spec fn wide(blocks: Seq<u32>) -> Seq<u64> {
    Seq::new(blocks.len(), |i: int| blocks[i] as u64)
}

/// The block numbers in the bytes of a header block: how many there are, and
/// each of them, as 32-bit numbers with the lowest byte first.
pub open spec fn header_blocks(bytes: Seq<u8>) -> Seq<nat> {
    Seq::new(
        le_number(bytes.subrange(0, 4)),
        |i: int| le_number(bytes.subrange(4 + 4 * i, 8 + 4 * i)),
    )
}

/// Reads the bytes of a header block.
pub fn decode_header(bytes: &[u8]) -> (r: Vec<u32>)
    requires
        bytes@.len() == FS_BLOCK_SIZE,
        header_blocks(bytes@).len() <= LOG_SIZE,
    ensures
        r@.len() == header_blocks(bytes@).len(),
        forall|i: int| 0 <= i < r@.len() ==> #[trigger] r@[i] == header_blocks(bytes@)[i],
{
    let len: u32 = read_le_u32(bytes, 0);
    let mut r: Vec<u32> = Vec::new();
    while r.len() < len as usize
        invariant
            bytes@.len() == FS_BLOCK_SIZE,
            len == header_blocks(bytes@).len(),
            len <= LOG_SIZE,
            r@.len() <= len,
            forall|i: int| 0 <= i < r@.len() ==> #[trigger] r@[i] == header_blocks(bytes@)[i],
        decreases len - r@.len(),
    {
        let at: usize = 4 + 4 * r.len();
        let block: u32 = read_le_u32(bytes, at);
        r.push(block);
    }
    r
}

/// The bytes of a header block that lists the given blocks.
pub fn encode_header(blocks: &[u64]) -> (r: Vec<u8>)
    requires
        blocks@.len() <= LOG_SIZE,
        forall|i: int| 0 <= i < blocks@.len() ==> #[trigger] blocks@[i] <= u32::MAX,
    ensures
        r@.len() == FS_BLOCK_SIZE,
        header_blocks(r@).len() == blocks@.len(),
        forall|i: int| 0 <= i < blocks@.len() ==> header_blocks(r@)[i] == #[trigger] blocks@[i],
{
    let mut r: Vec<u8> = Vec::new();
    push_le_u32(&mut r, blocks.len() as u32);
    proof {
        lemma_le_bytes(blocks@.len() as u32);
        assert(r@.subrange(0, 4) =~= le_bytes(blocks@.len() as u32));
    }
    let mut i: usize = 0;
    while i < blocks.len()
        invariant
            blocks@.len() <= LOG_SIZE,
            forall|j: int| 0 <= j < blocks@.len() ==> #[trigger] blocks@[j] <= u32::MAX,
            i <= blocks@.len(),
            r@.len() == 4 + 4 * i,
            le_number(r@.subrange(0, 4)) == blocks@.len(),
            forall|j: int|
                0 <= j < i ==> le_number(r@.subrange(4 + 4 * j, 8 + 4 * j)) == #[trigger] blocks@[j],
        decreases blocks@.len() - i,
    {
        let ghost before = r@;
        let block: u32 = blocks[i] as u32;
        push_le_u32(&mut r, block);
        proof {
            lemma_le_bytes(block);
            assert(r@.subrange(0, 4) =~= before.subrange(0, 4));
            assert(r@.subrange(4 + 4 * i, 8 + 4 * i) =~= le_bytes(block));
            assert forall|j: int| 0 <= j < i implies le_number(
                r@.subrange(4 + 4 * j, 8 + 4 * j),
            ) == #[trigger] blocks@[j] by {
                assert(r@.subrange(4 + 4 * j, 8 + 4 * j) =~= before.subrange(
                    4 + 4 * j,
                    8 + 4 * j,
                ));
            }
        }
        i = i + 1;
    }
    let ghost full = r@;
    while r.len() < FS_BLOCK_SIZE
        invariant
            full.len() <= r@.len() <= FS_BLOCK_SIZE,
            r@.take(full.len() as int) == full,
        decreases FS_BLOCK_SIZE - r@.len(),
    {
        let ghost before = r@;
        r.push(0);
        assert(r@.take(full.len() as int) =~= before.take(full.len() as int));
    }
    proof {
        assert(r@.subrange(0, 4) =~= full.subrange(0, 4));
        assert forall|j: int| 0 <= j < blocks@.len() implies header_blocks(r@)[j]
            == #[trigger] blocks@[j] by {
            assert(r@.subrange(4 + 4 * j, 8 + 4 * j) =~= full.subrange(4 + 4 * j, 8 + 4 * j));
        }
    }
    r
}

/// A block that has been changed is among the blocks afterwards, once. Those that were
/// there before are there, in the same order, and there is no other.
pub proof fn law_with_block(blocks: Seq<u64>, block: u64)
    requires
        blocks.no_duplicates(),
    ensures
        with_block(blocks, block).contains(block),
        with_block(blocks, block).no_duplicates(),
        forall|i: int|
            0 <= i < blocks.len() ==> with_block(blocks, block)[i] == #[trigger] blocks[i],
        blocks.contains(block) ==> with_block(blocks, block).len() == blocks.len(),
        !blocks.contains(block) ==> with_block(blocks, block).len() == blocks.len() + 1,
{
    let after = with_block(blocks, block);
    if !blocks.contains(block) {
        assert(after[blocks.len() as int] == block);
        assert forall|i: int, j: int| 0 <= i < after.len() && 0 <= j < after.len() && i != j implies after[i]
            != after[j] by {
            if i < blocks.len() {
                assert(blocks.contains(blocks[i]));
            }
            if j < blocks.len() {
                assert(blocks.contains(blocks[j]));
            }
        }
    }
}

/// The blocks that a header lists are all taken over, each once, and no others.
pub proof fn law_distinct(blocks: Seq<u64>, n: nat)
    requires
        n <= blocks.len(),
    ensures
        distinct(blocks, n).no_duplicates(),
        distinct(blocks, n).len() <= n,
        forall|b: u64|
            #[trigger] distinct(blocks, n).contains(b) <==> exists|i: int|
                0 <= i < n && #[trigger] blocks[i] == b,
    decreases n,
{
    if n > 0 {
        law_distinct(blocks, (n - 1) as nat);
        let before = distinct(blocks, (n - 1) as nat);
        let after = distinct(blocks, n);
        let last = blocks[n - 1];
        law_with_block(before, last);
        assert forall|b: u64|
            #[trigger] after.contains(b) <==> exists|i: int| 0 <= i < n && #[trigger] blocks[i]
                == b by {
            if after.contains(b) {
                let k = after.index_of(b);
                if k < before.len() {
                    assert(before[k] == b);
                    assert(before.contains(b));
                    let i = choose|i: int| 0 <= i < n - 1 && #[trigger] blocks[i] == b;
                    assert(0 <= i < n && blocks[i] == b);
                } else {
                    assert(b == last);
                    assert(blocks[n - 1] == b);
                }
            }
            if exists|i: int| 0 <= i < n && #[trigger] blocks[i] == b {
                let i = choose|i: int| 0 <= i < n && #[trigger] blocks[i] == b;
                if i < n - 1 {
                    assert(before.contains(b));
                    let k = before.index_of(b);
                    assert(after[k] == before[k]);
                    assert(after.contains(after[k]));
                } else {
                    assert(b == last);
                }
            }
        }
    } else {
        assert(distinct(blocks, 0).len() == 0);
    }
}

/// The block behind the header is the first one of the body, and each is followed by the
/// next one; all are part of the log, and the header is not among them.
pub proof fn law_log_layout(sb: SuperBlock, i: int, j: int)
    requires
        sb.wf(),
        0 <= i < sb.log_len - 1,
        0 <= j < sb.log_len - 1,
    ensures
        sb.body(0) == sb.log_start + 1,
        sb.body(i) - sb.body(j) == i - j,
        sb.in_log(sb.body(i)),
        sb.body(i) != sb.log_start,
        sb.in_log(sb.log_start as int),
        !sb.in_log(sb.log_start + sb.log_len),
        !sb.in_log(sb.log_start - 1),
{
}

/// Where the numbers stand in a header block: how many there are in its first four bytes,
/// the lowest first, and each of them in the next four.
pub proof fn law_header_layout(bytes: Seq<u8>, i: int)
    requires
        bytes.len() == 1024,
        0 <= i < header_blocks(bytes).len(),
        i < 255,
    ensures
        header_blocks(bytes).len() == bytes[0] + 0x100 * bytes[1] + 0x1_0000 * bytes[2]
            + 0x100_0000 * bytes[3],
        header_blocks(bytes)[i] == bytes[4 + 4 * i] + 0x100 * bytes[5 + 4 * i] + 0x1_0000
            * bytes[6 + 4 * i] + 0x100_0000 * bytes[7 + 4 * i],
{
    crate::bytes::law_le_number(bytes.subrange(0, 4));
    crate::bytes::law_le_number(bytes.subrange(4 + 4 * i, 8 + 4 * i));
}

/// An access to the disk stands for what it does, and the numbers in a header for the same
/// numbers in memory.
pub proof fn law_action_view(a: LogAction, header: Seq<u32>, i: int)
    ensures
        match a {
            LogAction::CopyToLog { block, slot } => a@ == (Action::CopyToLog { block, slot }),
            LogAction::WriteHead { blocks } => a@ == (Action::WriteHead { blocks: blocks@ }),
            LogAction::CopyHome { slot, block } => a@ == (Action::CopyHome { slot, block }),
        },
        wide(header).len() == header.len(),
        0 <= i < header.len() ==> wide(header)[i] == header[i],
{
}

} // verus!
