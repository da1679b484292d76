//! Transactions of the file system.
use super::log::{with_block, LogHeader, FS_BLOCK_SIZE, LOG_SIZE, MAX_OP_BLOCKS};
use crate::sync::spin_lock::WaitError;
use vstd::prelude::*;

verus! {

/// The state of the log.
pub struct LogData {
    /// How many transactions are in progress.
    pub outstanding: usize,
    /// The blocks that they have changed. If there is none, they are being
    /// committed.
    pub header: Option<LogHeader>,
}

/// What makes a process look at the log that it wants to begin a transaction in.
#[derive(Debug, Clone, Copy, PartialEq, Eq, Structural)]
pub enum BeginEvent {
    /// It has got hold of the log.
    Locked,
    /// It has waited, and something has changed.
    Woken,
    /// It has waited, and was killed.
    Killed,
}

/// What a process does that wants to begin a transaction.
#[derive(Debug, Clone, Copy, PartialEq, Eq, Structural)]
pub enum BeginAction {
    /// It has begun one.
    Begun,
    /// It waits for something to change.
    Wait,
    /// It gives up.
    Fail(WaitError),
}

/// What a process does that ends its transaction.
pub enum EndAction {
    /// It wakes those that wait, as there is more room in the log now.
    Notify,
    /// It commits what has been changed, as nobody else is in a transaction. Then
    /// it hands the header back and wakes those that wait.
    Commit(LogHeader),
}

impl LogData {
    /// The header is in order, no transaction is in progress during a commit, and
    /// there are no more transactions than the log has room for.
    pub open spec fn wf(self) -> bool {
        &&& self.header matches Some(header) ==> header.wf()
        &&& self.header is None ==> self.outstanding == 0
        &&& self.outstanding * MAX_OP_BLOCKS <= LOG_SIZE
    }

    /// Whether the log has room for one more transaction.
    pub open spec fn can_begin(self) -> bool {
        self.header matches Some(header) && header.blocks().len() + (self.outstanding + 1)
            * MAX_OP_BLOCKS <= LOG_SIZE
    }

    /// The log, given the header after recovery.
    pub fn new(header: LogHeader) -> (r: Self)
        requires
            header.wf(),
        ensures
            r.wf(),
            r.outstanding == 0,
            r.header == Some(header),
    {
        LogData { outstanding: 0, header: Some(header) }
    }

    /// Begins a transaction, if there is room for it in the log.
    pub fn begin_op(&mut self, event: BeginEvent) -> (r: BeginAction)
        requires
            old(self).wf(),
        ensures
            final(self).wf(),
            final(self).header == old(self).header,
            r == (if event == BeginEvent::Killed {
                BeginAction::Fail(WaitError::WaitingProcessAlreadyKilled)
            } else if old(self).can_begin() {
                BeginAction::Begun
            } else {
                BeginAction::Wait
            }),
            final(self).outstanding == old(self).outstanding + if r == BeginAction::Begun {
                1int
            } else {
                0
            },
            begin_step(*old(self), *final(self), event, r),
    {
        match event {
            BeginEvent::Killed => BeginAction::Fail(WaitError::WaitingProcessAlreadyKilled),
            _ => if self.force_begin_op() {
                BeginAction::Begun
            } else {
                BeginAction::Wait
            },
        }
    }

    /// Begins a transaction, if there is room for it in the log; whoever finds
    /// none waits, whatever happens.
    pub fn force_begin_op(&mut self) -> (r: bool)
        requires
            old(self).wf(),
        ensures
            final(self).wf(),
            final(self).header == old(self).header,
            r == old(self).can_begin(),
            final(self).outstanding == old(self).outstanding + if r {
                1int
            } else {
                0
            },
    {
        match &self.header {
            None => false,
            Some(header) => {
                if header.len() + (self.outstanding + 1) * MAX_OP_BLOCKS > header.max_len() {
                    false
                } else {
                    self.outstanding = self.outstanding + 1;
                    true
                }
            },
        }
    }

    /// Ends a transaction. If it was the last one, the header is handed out to be
    /// committed.
    pub fn end_op(&mut self) -> (r: EndAction)
        requires
            old(self).wf(),
            old(self).outstanding > 0,
        ensures
            final(self).wf(),
            final(self).outstanding == old(self).outstanding - 1,
            old(self).outstanding > 1 ==> r is Notify && final(self).header == old(self).header,
            old(self).outstanding == 1 ==> {
                &&& r matches EndAction::Commit(header)
                &&& old(self).header == Some(header)
                &&& header.wf()
                &&& final(self).header is None
            },
            end_step(*old(self), *final(self), r),
    {
        self.outstanding = self.outstanding - 1;
        if self.outstanding == 0 {
            match self.header.take() {
                Some(header) => EndAction::Commit(header),
                None => EndAction::Notify,
            }
        } else {
            EndAction::Notify
        }
    }

    /// Hands the header back after a commit.
    pub fn finish_commit(&mut self, header: LogHeader)
        requires
            old(self).wf(),
            old(self).header is None,
            header.wf(),
        ensures
            final(self).wf(),
            final(self).outstanding == old(self).outstanding,
            final(self).header == Some(header),
    {
        self.header = Some(header);
    }

    /// Notes that a transaction has changed a block.
    pub fn write(&mut self, block: u64)
        requires
            old(self).wf(),
            old(self).outstanding > 0,
            old(self).header matches Some(header) && header.blocks().len() < header.sb().log_len - 1,
        ensures
            final(self).wf(),
            final(self).outstanding == old(self).outstanding,
            final(self).header matches Some(header) && header.sb() == old(self).header->0.sb()
                && header.blocks() == with_block(old(self).header->0.blocks(), block),
    {
        match self.header.as_mut() {
            Some(header) => header.push(block),
            None => {},
        }
    }
}

/// Whether a process has tried to begin a transaction.
pub open spec fn begin_step(
    before: LogData,
    after: LogData,
    event: BeginEvent,
    r: BeginAction,
) -> bool {
    &&& after.header == before.header
    &&& match r {
        BeginAction::Fail(_) => event == BeginEvent::Killed && after.outstanding
            == before.outstanding,
        BeginAction::Begun => event != BeginEvent::Killed && before.can_begin()
            && after.outstanding == before.outstanding + 1,
        BeginAction::Wait => event != BeginEvent::Killed && !before.can_begin()
            && after.outstanding == before.outstanding,
    }
}

/// Whether a transaction has ended.
pub open spec fn end_step(before: LogData, after: LogData, r: EndAction) -> bool {
    &&& after.outstanding == before.outstanding - 1
    &&& match r {
        EndAction::Notify => before.outstanding > 1 && after.header == before.header,
        EndAction::Commit(header) => before.outstanding == 1 && before.header == Some(header)
            && after.header is None,
    }
}

/// A transaction begins if and only if nothing is being committed and the log, of thirty
/// blocks, has room for ten more than it holds and than the others may still need. Who was
/// killed while it waited gives up; who finds no room waits. The blocks that have been
/// changed stay as they are.
pub proof fn law_begin(before: LogData, after: LogData, event: BeginEvent, r: BeginAction)
    requires
        begin_step(before, after, event, r),
    ensures
        r is Fail <==> event is Killed,
        r is Begun <==> !(event is Killed) && before.header is Some
            && before.header->0.blocks().len() + 10 * before.outstanding + 10 <= 30,
        after.header == before.header,
        after.outstanding - before.outstanding == (if r is Begun {
            1int
        } else {
            0
        }),
{
    assert((before.outstanding + 1) * MAX_OP_BLOCKS == 10 * before.outstanding + 10);
}

/// What has been changed is committed when the last transaction ends, and not before. Until
/// the commit is over, no transaction can begin.
pub proof fn law_commit_at_end(before: LogData, after: LogData, r: EndAction)
    requires
        before.wf(),
        before.outstanding > 0,
        end_step(before, after, r),
    ensures
        r is Commit <==> after.outstanding == 0,
        r matches EndAction::Commit(header) ==> {
            &&& before.header == Some(header)
            &&& !after.can_begin()
        },
        r is Notify ==> after.header == before.header,
        after.outstanding + 1 == before.outstanding,
{
}

/// What a process lets go of becomes part of what is committed if and only if it was
/// changed, holds what the block is to hold, and belongs to a transaction that writes.
pub proof fn law_changed_is_logged<const VALID: bool, const READ_ONLY: bool>(
    guard: TxBlockGuard<VALID, READ_ONLY>,
)
    ensures
        guard.is_changed() <==> guard.cached.dirty && guard.cached.valid && guard.logged,
{
}

/// How much the transactions in progress may still change.
pub open spec fn total(rest: Seq<nat>) -> nat
    decreases rest.len(),
{
    if rest.len() == 0 {
        0
    } else {
        total(rest.drop_last()) + rest.last()
    }
}

/// Whether the log has room for everything that the transactions in progress
/// may still change: `rest` says how many blocks each of them has not used of
/// those it is allowed.
pub open spec fn has_space(log: LogData, rest: Seq<nat>) -> bool {
    &&& log.header is Some
    &&& rest.len() == log.outstanding
    &&& forall|i: int| 0 <= i < rest.len() ==> #[trigger] rest[i] <= MAX_OP_BLOCKS
    &&& log.header->0.blocks().len() + total(rest) <= LOG_SIZE
}

proof fn lemma_total_bound(rest: Seq<nat>)
    requires
        forall|i: int| 0 <= i < rest.len() ==> #[trigger] rest[i] <= MAX_OP_BLOCKS,
    ensures
        total(rest) <= rest.len() * MAX_OP_BLOCKS,
    decreases rest.len(),
{
    if rest.len() > 0 {
        lemma_total_bound(rest.drop_last());
    }
}

proof fn lemma_total_update(rest: Seq<nat>, i: int, x: nat)
    requires
        0 <= i < rest.len(),
    ensures
        total(rest.update(i, x)) == total(rest) - rest[i] + x,
        rest[i] <= total(rest),
    decreases rest.len(),
{
    let u = rest.update(i, x);
    if i == rest.len() - 1 {
        assert(u.drop_last() =~= rest.drop_last());
    } else {
        assert(u.drop_last() =~= rest.drop_last().update(i, x));
        lemma_total_update(rest.drop_last(), i, x);
    }
}

proof fn lemma_total_remove(rest: Seq<nat>, i: int)
    requires
        0 <= i < rest.len(),
    ensures
        total(rest.remove(i)) == total(rest) - rest[i],
    decreases rest.len(),
{
    let u = rest.remove(i);
    if i == rest.len() - 1 {
        assert(u =~= rest.drop_last());
    } else {
        assert(u.drop_last() =~= rest.drop_last().remove(i));
        assert(u.last() == rest.last());
        lemma_total_remove(rest.drop_last(), i);
    }
}

/// A transaction begins only where the log has room for all that it may change,
/// next to all that the others still may.
pub proof fn law_begin_keeps_space(before: LogData, after: LogData, rest: Seq<nat>)
    requires
        before.wf(),
        has_space(before, rest),
        before.can_begin(),
        after.header == before.header,
        after.outstanding == before.outstanding + 1,
    ensures
        has_space(after, rest.push(MAX_OP_BLOCKS as nat)),
{
    lemma_total_bound(rest);
    assert(rest.push(MAX_OP_BLOCKS as nat).drop_last() =~= rest);
}

/// A transaction that has not used up what it is allowed finds room in the log, if the
/// log is as long as it can be, and afterwards there is still room for the rest.
pub proof fn law_write_keeps_space(
    before: LogData,
    after: LogData,
    rest: Seq<nat>,
    i: int,
    block: u64,
)
    requires
        before.wf(),
        has_space(before, rest),
        0 <= i < rest.len(),
        rest[i] > 0,
        after.outstanding == before.outstanding,
        after.header is Some,
        after.header->0.blocks() == with_block(before.header->0.blocks(), block),
    ensures
        before.header->0.blocks().len() < LOG_SIZE,
        before.header->0.sb().log_len - 1 == LOG_SIZE ==> before.header->0.blocks().len()
            < before.header->0.sb().log_len - 1,
        has_space(after, rest.update(i, (rest[i] - 1) as nat)),
{
    lemma_total_update(rest, i, (rest[i] - 1) as nat);
}

/// A transaction that ends leaves the others the room that they may need.
pub proof fn law_end_keeps_space(before: LogData, after: LogData, rest: Seq<nat>, i: int)
    requires
        before.wf(),
        has_space(before, rest),
        0 <= i < rest.len(),
        after.outstanding == before.outstanding - 1,
        after.header == before.header,
    ensures
        has_space(after, rest.remove(i)),
{
    lemma_total_remove(rest, i);
}

/// A transaction.
pub struct Tx<const READ_ONLY: bool> {
    /// Whether it takes part in the log.
    pub logged: bool,
}

/// What comes of the wish to begin a transaction.
pub enum BeginTx {
    /// It has begun.
    Begun(Tx<false>),
    /// The process waits, and tries again.
    Wait,
    /// It gives up.
    Fail(WaitError),
}

/// Begins a transaction. Called at the start of each file system call, and again
/// whenever the process has waited.
pub fn begin_tx(log: &mut LogData, event: BeginEvent) -> (r: BeginTx)
    requires
        old(log).wf(),
    ensures
        final(log).wf(),
        final(log).header == old(log).header,
        event == BeginEvent::Killed ==> r == BeginTx::Fail(WaitError::WaitingProcessAlreadyKilled),
        event != BeginEvent::Killed && old(log).can_begin() ==> {
            &&& r matches BeginTx::Begun(tx)
            &&& tx.logged
        },
        event != BeginEvent::Killed && !old(log).can_begin() ==> r is Wait,
        final(log).outstanding == old(log).outstanding + if r is Begun {
            1int
        } else {
            0
        },
{
    match log.begin_op(event) {
        BeginAction::Begun => BeginTx::Begun(Tx { logged: true }),
        BeginAction::Wait => BeginTx::Wait,
        BeginAction::Fail(e) => BeginTx::Fail(e),
    }
}

/// Begins a transaction, for a caller that waits as long as it takes: `None`
/// asks it to wait and try again.
pub fn force_begin_tx(log: &mut LogData) -> (r: Option<Tx<false>>)
    requires
        old(log).wf(),
    ensures
        final(log).wf(),
        final(log).header == old(log).header,
        r is Some <==> old(log).can_begin(),
        r matches Some(tx) ==> tx.logged,
        final(log).outstanding == old(log).outstanding + if r is Some {
            1int
        } else {
            0
        },
{
    if log.force_begin_op() {
        Some(Tx { logged: true })
    } else {
        None
    }
}

/// Begins a transaction that only reads; the log has no part in it.
pub fn begin_readonly_tx() -> (r: Tx<true>)
    ensures
        !r.logged,
{
    Tx { logged: false }
}

impl<const READ_ONLY: bool> Tx<READ_ONLY> {
    /// Whether the transaction takes part in the log just if it writes.
    pub open spec fn wf(self) -> bool {
        self.logged == !READ_ONLY
    }

    /// Ends the transaction. Says what is to be done if it was one that writes.
    pub fn end(self, log: &mut LogData) -> (r: Option<EndAction>)
        requires
            old(log).wf(),
            !READ_ONLY ==> old(log).outstanding > 0,
        ensures
            final(log).wf(),
            READ_ONLY ==> r is None && *final(log) == *old(log),
            !READ_ONLY ==> {
                &&& r matches Some(action)
                &&& final(log).outstanding == old(log).outstanding - 1
                &&& old(log).outstanding > 1 ==> action is Notify && final(log).header == old(
                    log,
                ).header
                &&& old(log).outstanding == 1 ==> action is Commit && old(log).header == Some(
                    action->Commit_0,
                ) && final(log).header is None
            },
    {
        if READ_ONLY {
            None
        } else {
            Some(log.end_op())
        }
    }

    /// A reference to a block that the transaction may read and, unless it only
    /// reads, change.
    pub fn get_block(&self, dev: u32, bn: u64) -> (r: TxBlockRef<READ_ONLY>)
        ensures
            r.dev == dev,
            r.block == bn,
            r.logged == self.logged,
    {
        TxBlockRef { logged: self.logged, dev, block: bn }
    }

    /// The transaction as one that writes, if it is one. It does not end when that
    /// is done with.
    pub fn to_writable(&self) -> (r: Option<NestedTx<false>>)
        ensures
            READ_ONLY ==> r is None,
            !READ_ONLY ==> (r matches Some(nested) && nested.tx.logged),
    {
        if READ_ONLY {
            None
        } else {
            Some(NestedTx { tx: Tx { logged: true } })
        }
    }
}

/// A part of a transaction, which does not end it.
pub struct NestedTx<const READ_ONLY: bool> {
    pub tx: Tx<READ_ONLY>,
}

/// A reference to a block of a disk within a transaction.
pub struct TxBlockRef<const READ_ONLY: bool> {
    pub logged: bool,
    pub dev: u32,
    pub block: u64,
}

/// A block as it is cached.
#[derive(Debug)]
pub struct CachedBlock {
    /// Whether it holds what the block on the disk holds, or is to hold.
    pub valid: bool,
    /// Whether it has been changed.
    pub dirty: bool,
    pub data: Vec<u8>,
}

impl<const READ_ONLY: bool> TxBlockRef<READ_ONLY> {
    /// Gets hold of the block in the cache.
    pub fn lock(&mut self, cached: CachedBlock) -> (r: TxBlockGuard<false, READ_ONLY>)
        ensures
            *final(self) == *old(self),
            r.logged == old(self).logged,
            r.block == old(self).block,
            r.cached == cached,
    {
        TxBlockGuard { logged: self.logged, block: self.block, cached }
    }
}

/// A hold on a block of a disk within a transaction.
pub struct TxBlockGuard<const VALID: bool, const READ_ONLY: bool> {
    pub logged: bool,
    pub block: u64,
    pub cached: CachedBlock,
}

impl<const VALID: bool, const READ_ONLY: bool> TxBlockGuard<VALID, READ_ONLY> {
    /// Whether letting go of the block makes it part of what is committed.
    pub open spec fn is_changed(self) -> bool {
        self.cached.dirty && self.cached.valid && self.logged
    }

    /// Reads the block: `disk` is what is on the disk, and counts only if the
    /// cache does not hold the block.
    pub fn read(self, disk: Vec<u8>) -> (r: TxBlockGuard<true, READ_ONLY>)
        ensures
            r.logged == self.logged,
            r.block == self.block,
            r.cached.valid,
            r.cached.dirty == self.cached.dirty,
            r.cached.data@ == (if self.cached.valid {
                self.cached.data@
            } else {
                disk@
            }),
    {
        let dirty: bool = self.cached.dirty;
        let data: Vec<u8> = if self.cached.valid {
            self.cached.data
        } else {
            disk
        };
        TxBlockGuard {
            logged: self.logged,
            block: self.block,
            cached: CachedBlock { valid: true, dirty, data },
        }
    }

    /// Lets go of the block. If it has been changed, the log takes note.
    pub fn release(self, log: &mut LogData) -> (r: CachedBlock)
        requires
            old(log).wf(),
            self.is_changed() ==> {
                &&& old(log).outstanding > 0
                &&& old(log).header matches Some(header) && header.blocks().len()
                    < header.sb().log_len - 1
            },
        ensures
            r == self.cached,
            final(log).wf(),
            final(log).outstanding == old(log).outstanding,
            !self.is_changed() ==> *final(log) == *old(log),
            self.is_changed() ==> {
                &&& final(log).header matches Some(header)
                &&& header.sb() == old(log).header->0.sb()
                &&& header.blocks() == with_block(old(log).header->0.blocks(), self.block)
            },
    {
        if self.cached.dirty && self.cached.valid && self.logged {
            log.write(self.block);
        }
        self.cached
    }
}

impl<const VALID: bool> TxBlockGuard<VALID, false> {
    /// Fills the block with zeros.
    pub fn zeroed(self) -> (r: TxBlockGuard<true, false>)
        ensures
            r.logged == self.logged,
            r.block == self.block,
            r.cached.valid,
            r.cached.dirty,
            r.cached.data@ == Seq::new(FS_BLOCK_SIZE as nat, |i: int| 0u8),
    {
        let mut data: Vec<u8> = Vec::new();
        while data.len() < FS_BLOCK_SIZE
            invariant
                data@.len() <= FS_BLOCK_SIZE,
                forall|i: int| 0 <= i < data@.len() ==> #[trigger] data@[i] == 0,
            decreases FS_BLOCK_SIZE - data@.len(),
        {
            data.push(0);
        }
        TxBlockGuard {
            logged: self.logged,
            block: self.block,
            cached: CachedBlock { valid: true, dirty: true, data },
        }
    }
}

} // verus!
