//! What a crash leaves of a transaction: all of it or nothing.
use super::log::{
    commit_actions, install, recover_actions, write_body, write_head, Action, SuperBlock,
};
use vstd::prelude::*;

verus! {

/// What is on a disk: the blocks, and the block numbers that the header of the
/// log lists.
pub struct DiskView {
    pub blocks: spec_fn(int) -> Seq<u8>,
    pub head: Seq<u64>,
}

impl DiskView {
    /// With one block replaced.
    pub open spec fn with(self, block: int, data: Seq<u8>) -> Self {
        DiskView {
            blocks: |b: int|
                if b == block {
                    data
                } else {
                    (self.blocks)(b)
                },
            ..self
        }
    }
}

/// The disk after an action, given what is cached.
pub open spec fn applied(disk: DiskView, cache: spec_fn(int) -> Seq<u8>, a: Action) -> DiskView {
    match a {
        Action::CopyToLog { block, slot } => disk.with(slot as int, cache(block as int)),
        Action::WriteHead { blocks } => DiskView { head: blocks, ..disk },
        Action::CopyHome { slot, block } => disk.with(block as int, (disk.blocks)(slot as int)),
    }
}

/// The disk after a number of actions.
pub open spec fn run(
    disk: DiskView,
    cache: spec_fn(int) -> Seq<u8>,
    list: Seq<Action>,
) -> DiskView
    decreases list.len(),
{
    if list.len() == 0 {
        disk
    } else {
        applied(run(disk, cache, list.drop_last()), cache, list.last())
    }
}

/// Doing one list of actions after another.
proof fn lemma_run_both(
    disk: DiskView,
    cache: spec_fn(int) -> Seq<u8>,
    a: Seq<Action>,
    b: Seq<Action>,
)
    ensures
        run(disk, cache, a + b) == run(run(disk, cache, a), cache, b),
    decreases b.len(),
{
    if b.len() == 0 {
        assert(a + b =~= a);
    } else {
        assert((a + b).drop_last() =~= a + b.drop_last());
        lemma_run_both(disk, cache, a, b.drop_last());
    }
}

/// Whether blocks can stand in the log: there is room, each is listed once, and
/// none belongs to the log itself.
pub open spec fn loggable(sb: SuperBlock, blocks: Seq<u64>) -> bool {
    &&& sb.wf()
    &&& blocks.len() <= sb.log_len - 1
    &&& blocks.no_duplicates()
    &&& forall|i: int| 0 <= i < blocks.len() ==> !sb.in_log(#[trigger] blocks[i] as int)
}

/// The disk after the first `k` blocks are written to the log.
proof fn lemma_run_body(
    disk: DiskView,
    cache: spec_fn(int) -> Seq<u8>,
    sb: SuperBlock,
    blocks: Seq<u64>,
    k: nat,
)
    requires
        loggable(sb, blocks),
        k <= blocks.len(),
    ensures
        ({
            let after = run(disk, cache, write_body(sb, blocks).take(k as int));
            &&& after.head == disk.head
            &&& forall|x: int| !sb.in_log(x) ==> #[trigger] (after.blocks)(x) == (disk.blocks)(x)
            &&& forall|i: int|
                0 <= i < k ==> (after.blocks)(sb.body(i)) == cache(#[trigger] blocks[i] as int)
        }),
    decreases k,
{
    let all = write_body(sb, blocks);
    if k > 0 {
        lemma_run_body(disk, cache, sb, blocks, (k - 1) as nat);
        assert(all.take(k as int).drop_last() =~= all.take(k - 1));
        assert(all.take(k as int).last() == all[k - 1]);
    }
}

/// The disk after the first `k` blocks are copied to their home locations.
proof fn lemma_run_install(
    disk: DiskView,
    cache: spec_fn(int) -> Seq<u8>,
    sb: SuperBlock,
    blocks: Seq<u64>,
    k: nat,
)
    requires
        loggable(sb, blocks),
        k <= blocks.len(),
    ensures
        ({
            let after = run(disk, cache, install(sb, blocks).take(k as int));
            &&& after.head == disk.head
            &&& forall|x: int| sb.in_log(x) ==> #[trigger] (after.blocks)(x) == (disk.blocks)(x)
            &&& forall|x: int|
                (forall|i: int| 0 <= i < k ==> #[trigger] blocks[i] != x)
                    ==> #[trigger] (after.blocks)(x) == (disk.blocks)(x)
            &&& forall|i: int|
                0 <= i < k ==> (after.blocks)(#[trigger] blocks[i] as int) == (disk.blocks)(
                    sb.body(i),
                )
        }),
    decreases k,
{
    let all = install(sb, blocks);
    if k > 0 {
        lemma_run_install(disk, cache, sb, blocks, (k - 1) as nat);
        assert(all.take(k as int).drop_last() =~= all.take(k - 1));
        assert(all.take(k as int).last() == all[k - 1]);
        let before = run(disk, cache, all.take(k - 1));
        let after = run(disk, cache, all.take(k as int));
        assert(after == before.with(
            blocks[k - 1] as int,
            (before.blocks)(sb.body(k - 1)),
        ));
        assert(sb.in_log(sb.body(k - 1)));
        assert forall|i: int| 0 <= i < k implies (after.blocks)(#[trigger] blocks[i] as int)
            == (disk.blocks)(sb.body(i)) by {
            assert(i < k - 1 ==> blocks[i] != blocks[k - 1]);
        }
        assert forall|x: int|
            (forall|i: int| 0 <= i < k ==> #[trigger] blocks[i] != x) implies #[trigger] (
        after.blocks)(x) == (disk.blocks)(x) by {
            assert(blocks[k - 1] != x);
        }
    }
}

/// The disk after a recovery.
proof fn lemma_recover(
    disk: DiskView,
    cache: spec_fn(int) -> Seq<u8>,
    sb: SuperBlock,
    blocks: Seq<u64>,
)
    requires
        loggable(sb, blocks),
    ensures
        ({
            let after = run(disk, cache, recover_actions(sb, blocks));
            &&& after.head == Seq::<u64>::empty()
            &&& forall|x: int|
                !blocks_contain(blocks, x) ==> #[trigger] (after.blocks)(x) == (disk.blocks)(x)
            &&& forall|i: int|
                0 <= i < blocks.len() ==> (after.blocks)(#[trigger] blocks[i] as int) == (
                disk.blocks)(sb.body(i))
        }),
{
    let n = blocks.len();
    let inst = install(sb, blocks);
    lemma_run_install(disk, cache, sb, blocks, n);
    assert(inst.take(n as int) =~= inst);
    lemma_run_both(disk, cache, inst, write_head(seq![]));
    let mid = run(disk, cache, inst);
    let last = write_head(Seq::<u64>::empty());
    assert(last.drop_last() =~= seq![]);
    assert(run(mid, cache, last.drop_last()) == mid);
    assert(Seq::<u64>::empty() =~= seq![]);
}

/// Whether a block is among those listed.
pub open spec fn blocks_contain(blocks: Seq<u64>, x: int) -> bool {
    exists|i: int| 0 <= i < blocks.len() && #[trigger] blocks[i] == x
}

/// A crash at any point of a commit, followed by a recovery, leaves either all
/// blocks of the transaction as they were or all of them as the transaction has
/// changed them: the latter as soon as the header has been written. All other
/// blocks outside the log are as they were.
pub proof fn law_crash_atomic(
    disk: DiskView,
    cache: spec_fn(int) -> Seq<u8>,
    sb: SuperBlock,
    blocks: Seq<u64>,
    k: nat,
)
    requires
        loggable(sb, blocks),
        disk.head.len() == 0,
        k <= commit_actions(sb, blocks).len(),
    ensures
        ({
            let crashed = run(disk, cache, commit_actions(sb, blocks).take(k as int));
            let after = run(crashed, cache, recover_actions(sb, crashed.head));
            &&& after.head.len() == 0
            &&& forall|x: int|
                !sb.in_log(x) ==> #[trigger] (after.blocks)(x) == (if k > blocks.len()
                    && blocks_contain(blocks, x) {
                    cache(x)
                } else {
                    (disk.blocks)(x)
                })
        }),
{
    let acts = commit_actions(sb, blocks);
    let n = blocks.len();
    let body = write_body(sb, blocks);
    let inst = install(sb, blocks);
    let crashed = run(disk, cache, acts.take(k as int));
    let none = Seq::<u64>::empty();
    assert(disk.head =~= none);
    lemma_recover_none(crashed, cache, sb);
    if n == 0 {
        assert(acts.take(k as int) =~= seq![]);
    } else if k <= n {
        assert(acts.take(k as int) =~= body.take(k as int));
        lemma_run_body(disk, cache, sb, blocks, k);
    } else {
        let written = run(disk, cache, body);
        let committed = run(disk, cache, body + write_head(blocks));
        assert(body.take(n as int) =~= body);
        lemma_run_body(disk, cache, sb, blocks, n);
        lemma_run_both(disk, cache, body, write_head(blocks));
        assert(write_head(blocks).drop_last() =~= seq![]);
        assert(run(written, cache, write_head(blocks).drop_last()) == written);
        assert(committed.head == blocks);
        let j: nat = if k <= 2 * n + 1 {
            (k - n - 1) as nat
        } else {
            n
        };
        lemma_run_install(committed, cache, sb, blocks, j);
        lemma_run_both(disk, cache, body + write_head(blocks), inst.take(j as int));
        let partly = run(committed, cache, inst.take(j as int));
        if k <= 2 * n + 1 {
            assert(acts.take(k as int) =~= body + write_head(blocks) + inst.take(j as int));
            assert(crashed == partly);
            lemma_recover(crashed, cache, sb, blocks);
        } else {
            assert(inst.take(n as int) =~= inst);
            assert(acts.take(k as int) =~= body + write_head(blocks) + inst + write_head(none));
            lemma_run_both(disk, cache, body + write_head(blocks) + inst, write_head(none));
            assert(write_head(none).drop_last() =~= seq![]);
            assert(run(partly, cache, write_head(none).drop_last()) == partly);
            assert(crashed.head =~= none);
        }
        let after = run(crashed, cache, recover_actions(sb, crashed.head));
        assert forall|x: int| !sb.in_log(x) implies #[trigger] (after.blocks)(x) == (
        if blocks_contain(blocks, x) {
            cache(x)
        } else {
            (disk.blocks)(x)
        }) by {
            if blocks_contain(blocks, x) {
                let i = choose|i: int| 0 <= i < blocks.len() && #[trigger] blocks[i] == x;
                assert(sb.in_log(sb.body(i)));
                assert((committed.blocks)(sb.body(i)) == cache(blocks[i] as int));
                assert((partly.blocks)(sb.body(i)) == (committed.blocks)(sb.body(i)));
            } else {
                assert(forall|i: int| 0 <= i < j ==> #[trigger] blocks[i] != x);
                assert((partly.blocks)(x) == (committed.blocks)(x));
            }
        }
    }
}

/// Recovering from an empty log changes no block.
proof fn lemma_recover_none(disk: DiskView, cache: spec_fn(int) -> Seq<u8>, sb: SuperBlock)
    ensures
        disk.head.len() == 0 ==> {
            let after = run(disk, cache, recover_actions(sb, disk.head));
            after.head.len() == 0 && after.blocks == disk.blocks
        },
{
    if disk.head.len() == 0 {
        let acts = recover_actions(sb, disk.head);
        assert(acts =~= write_head(Seq::<u64>::empty()));
        assert(acts.drop_last() =~= seq![]);
        assert(run(disk, cache, acts.drop_last()) == disk);
    }
}

/// A crash at any point of a recovery, followed by another recovery, leaves what
/// the recovery alone would have left.
pub proof fn law_recovery_repeats(
    disk: DiskView,
    cache: spec_fn(int) -> Seq<u8>,
    sb: SuperBlock,
    k: nat,
)
    requires
        loggable(sb, disk.head),
        k <= recover_actions(sb, disk.head).len(),
    ensures
        ({
            let crashed = run(disk, cache, recover_actions(sb, disk.head).take(k as int));
            let after = run(crashed, cache, recover_actions(sb, crashed.head));
            let straight = run(disk, cache, recover_actions(sb, disk.head));
            &&& after.head == straight.head
            &&& forall|x: int| #[trigger] (after.blocks)(x) == (straight.blocks)(x)
        }),
{
    let blocks = disk.head;
    let n = blocks.len();
    let acts = recover_actions(sb, blocks);
    let inst = install(sb, blocks);
    let crashed = run(disk, cache, acts.take(k as int));
    let straight = run(disk, cache, acts);
    lemma_recover(disk, cache, sb, blocks);
    if k <= n {
        assert(acts.take(k as int) =~= inst.take(k as int));
        lemma_run_install(disk, cache, sb, blocks, k);
        lemma_recover(crashed, cache, sb, blocks);
        let after = run(crashed, cache, acts);
        assert forall|x: int| #[trigger] (after.blocks)(x) == (straight.blocks)(x) by {
            if blocks_contain(blocks, x) {
                let i = choose|i: int| 0 <= i < blocks.len() && #[trigger] blocks[i] == x;
                assert(sb.in_log(sb.body(i)));
                assert((crashed.blocks)(sb.body(i)) == (disk.blocks)(sb.body(i)));
            } else {
                assert(forall|i: int| 0 <= i < k ==> #[trigger] blocks[i] != x);
            }
        }
    } else {
        assert(acts.take(k as int) =~= acts);
        assert(crashed.head =~= Seq::<u64>::empty());
        lemma_recover_none(crashed, cache, sb);
        let after = run(crashed, cache, recover_actions(sb, crashed.head));
        assert(after.head =~= straight.head);
    }
}

} // verus!
