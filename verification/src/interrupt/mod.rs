//! Utilities for controlling interrupt enability.
use vstd::prelude::*;

pub mod kernel_vec;
pub mod trampoline;
pub mod trap;

verus! {

/// How many CPUs there are at most.
pub const NCPU: usize = 8;

/// What a CPU remembers of calls of [`push_disabled`].
#[derive(Debug, Clone, Copy, PartialEq, Eq, Structural)]
pub struct CpuState {
    /// How many of them have not been undone.
    pub push_depth: usize,
    /// Whether interrupts were enabled before the first of these.
    pub int_enabled: bool,
}

impl CpuState {
    /// No call has been made.
    pub fn new() -> (r: Self)
        ensures
            r == (CpuState { push_depth: 0, int_enabled: false }),
    {
        CpuState { push_depth: 0, int_enabled: false }
    }

    /// Remembers whether interrupts were enabled, if this is the first call.
    pub fn push_disabled(&mut self, int_enabled: bool)
        requires
            old(self).push_depth < NCPU,
        ensures
            *final(self) == old(self).pushed(int_enabled),
    {
        let depth: usize = self.push_depth;
        self.push_depth = depth + 1;
        if depth == 0 {
            self.int_enabled = int_enabled;
        }
    }

    /// The state after one more call.
    pub open spec fn pushed(self, int_enabled: bool) -> Self {
        CpuState {
            push_depth: (self.push_depth + 1) as usize,
            int_enabled: if self.push_depth == 0 {
                int_enabled
            } else {
                self.int_enabled
            },
        }
    }

    /// Undoes a call. If it was the first one, says whether interrupts were enabled
    /// before it.
    pub fn pop_disabled(&mut self) -> (r: Option<bool>)
        requires
            old(self).push_depth > 0,
        ensures
            final(self).push_depth == old(self).push_depth - 1,
            final(self).int_enabled == old(self).int_enabled,
            r == (if old(self).push_depth == 1 {
                Some(old(self).int_enabled)
            } else {
                None
            }),
    {
        let depth: usize = self.push_depth;
        self.push_depth = depth - 1;
        if depth == 1 {
            return Some(self.int_enabled);
        }
        None
    }
}

/// A CPU, as far as interrupts go.
#[derive(Debug, Clone, Copy, PartialEq, Eq, Structural)]
pub struct Hart {
    /// The number of the CPU.
    pub id: usize,
    /// Whether interrupts are enabled.
    pub sie: bool,
    pub state: CpuState,
}

impl Hart {
    /// Interrupts are disabled as long as a call of [`push_disabled`] has not been
    /// undone.
    pub open spec fn wf(self) -> bool {
        self.state.push_depth > 0 ==> !self.sie
    }

    /// The CPU after one more call of [`push_disabled`].
    pub open spec fn pushed(self) -> Self {
        Hart { id: self.id, sie: false, state: self.state.pushed(self.sie) }
    }

    /// The CPU after a call of [`push_disabled`] has been undone.
    pub open spec fn popped(self) -> Self {
        Hart {
            id: self.id,
            sie: self.sie || (self.state.push_depth == 1 && self.state.int_enabled),
            state: CpuState {
                push_depth: (self.state.push_depth - 1) as usize,
                int_enabled: self.state.int_enabled,
            },
        }
    }
}

/// Enables interrupts.
pub fn enable(hart: &mut Hart)
    ensures
        *final(hart) == (Hart { sie: true, ..*old(hart) }),
{
    hart.sie = true;
}

/// Disables interrupts.
pub fn disable(hart: &mut Hart)
    ensures
        *final(hart) == (Hart { sie: false, ..*old(hart) }),
{
    hart.sie = false;
}

/// Returns `true` if interrupts are enabled.
pub fn is_enabled(hart: &Hart) -> (r: bool)
    ensures
        r == hart.sie,
{
    hart.sie
}

/// Returns depth of [`push_disabled`] calls.
pub fn disabled_depth(hart: &Hart) -> (r: usize)
    ensures
        r == hart.state.push_depth,
{
    hart.state.push_depth
}

/// Returns `true` if interrupts were enabled before the first [`push_disabled`]
/// call that has not been undone.
pub fn is_enabled_before_push(hart: &Hart) -> (r: bool)
    ensures
        r == hart.state.int_enabled,
{
    hart.state.int_enabled
}

/// Sets what [`is_enabled_before_push`] says.
pub fn force_set_before_push(hart: &mut Hart, enabled: bool)
    ensures
        final(hart).id == old(hart).id,
        final(hart).sie == old(hart).sie,
        final(hart).state.push_depth == old(hart).state.push_depth,
        final(hart).state.int_enabled == enabled,
{
    hart.state.int_enabled = enabled;
}

/// Saves the current interrupt enable state and disables interrupts.
pub fn push_disabled(hart: &mut Hart) -> (r: Guard)
    requires
        old(hart).state.push_depth < NCPU,
    ensures
        *final(hart) == old(hart).pushed(),
        final(hart).wf(),
        r.cpuid == old(hart).id,
{
    let current: bool = is_enabled(hart);
    disable(hart);
    hart.state.push_disabled(current);
    Guard { cpuid: hart.id }
}

/// Restores the interrupt enable state saved by [`push_disabled`].
pub fn pop_disabled(hart: &mut Hart)
    requires
        old(hart).state.push_depth > 0,
        !old(hart).sie,
    ensures
        *final(hart) == old(hart).popped(),
        final(hart).wf(),
{
    let guard = Guard { cpuid: hart.id };
    guard.release(hart);
}

/// Stands for the interrupt enable state saved by [`push_disabled`].
#[derive(Debug)]
pub struct Guard {
    pub cpuid: usize,
}

impl Guard {
    /// Restores the state, on the CPU on which it was saved.
    pub fn release(self, hart: &mut Hart)
        requires
            self.cpuid == old(hart).id,
            old(hart).state.push_depth > 0,
            !old(hart).sie,
        ensures
            *final(hart) == old(hart).popped(),
            final(hart).wf(),
    {
        match hart.state.pop_disabled() {
            Some(int_enabled) => {
                if int_enabled {
                    enable(hart);
                }
            },
            None => {},
        }
    }

    /// Leaves interrupts disabled.
    pub fn forget(self) {
    }
}

/// Calls a function with interrupts disabled. It is given the CPU as it then is.
pub fn with_push_disabled<T, F: FnOnce(&Hart) -> T>(hart: &mut Hart, f: F) -> (r: T)
    requires
        old(hart).wf(),
        old(hart).state.push_depth < NCPU,
        call_requires(f, (&old(hart).pushed(),)),
    ensures
        call_ensures(f, (&old(hart).pushed(),), r),
        *final(hart) == old(hart).pushed().popped(),
        final(hart).id == old(hart).id,
        final(hart).sie == old(hart).sie,
        final(hart).state.push_depth == old(hart).state.push_depth,
        old(hart).state.push_depth > 0 ==> *final(hart) == *old(hart),
{
    let guard = push_disabled(hart);
    let r: T = f(hart);
    guard.release(hart);
    r
}

/// The CPU after a number of calls of [`push_disabled`].
pub open spec fn pushed_times(hart: Hart, n: nat) -> Hart
    decreases n,
{
    if n == 0 {
        hart
    } else {
        pushed_times(hart, (n - 1) as nat).pushed()
    }
}

/// The CPU after a number of calls have been undone.
pub open spec fn popped_times(hart: Hart, n: nat) -> Hart
    decreases n,
{
    if n == 0 {
        hart
    } else {
        popped_times(hart.popped(), (n - 1) as nat)
    }
}

proof fn lemma_pushed_times(hart: Hart, n: nat)
    requires
        hart.wf(),
        hart.state.push_depth + n <= NCPU,
    ensures
        ({
            let after = pushed_times(hart, n);
            &&& after.wf()
            &&& after.id == hart.id
            &&& after.state.push_depth == hart.state.push_depth + n
            &&& n > 0 ==> !after.sie
            &&& after.state.int_enabled == (if n > 0 && hart.state.push_depth == 0 {
                hart.sie
            } else {
                hart.state.int_enabled
            })
        }),
    decreases n,
{
    if n > 0 {
        lemma_pushed_times(hart, (n - 1) as nat);
    }
}

proof fn lemma_popped_times(hart: Hart, n: nat)
    requires
        hart.wf(),
        0 < n <= hart.state.push_depth,
    ensures
        ({
            let after = popped_times(hart, n);
            &&& after.id == hart.id
            &&& after.state.push_depth == hart.state.push_depth - n
            &&& after.state.int_enabled == hart.state.int_enabled
            &&& after.sie == (n == hart.state.push_depth && hart.state.int_enabled)
        }),
    decreases n,
{
    if n > 1 {
        lemma_popped_times(hart.popped(), (n - 1) as nat);
    } else {
        assert(popped_times(hart.popped(), 0) == hart.popped());
    }
}

/// Calls of [`push_disabled`] nest: as long as one of them has not been undone,
/// interrupts are disabled; when all have been, interrupts are as they were.
pub proof fn law_push_pop(hart: Hart, n: nat)
    requires
        hart.wf(),
        0 < n,
        hart.state.push_depth + n <= NCPU,
    ensures
        !pushed_times(hart, n).sie,
        popped_times(pushed_times(hart, n), n).sie == hart.sie,
        popped_times(pushed_times(hart, n), n).state.push_depth == hart.state.push_depth,
        forall|k: nat| 0 < k < n ==> !(#[trigger] popped_times(pushed_times(hart, n), k)).sie,
{
    lemma_pushed_times(hart, n);
    lemma_popped_times(pushed_times(hart, n), n);
    assert forall|k: nat| 0 < k < n implies !(#[trigger] popped_times(
        pushed_times(hart, n),
        k,
    )).sie by {
        lemma_popped_times(pushed_times(hart, n), k);
    }
}

} // verus!
