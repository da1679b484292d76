//! What the kernel prints when it stops.
use crate::interrupt::trap::{frames, BacktraceLine};
use vstd::prelude::*;

verus! {

/// How many frames of the kernel are listed.
pub const KERNEL_FRAMES: usize = 100;

/// The words of a kernel stack, from an address on.
pub struct StackWords {
    pub base: u64,
    pub words: Vec<u64>,
}

impl StackWords {
    /// The word at an address, if it lies on the stack.
    pub open spec fn word_at(self, addr: int) -> Option<u64> {
        if self.base <= addr && (addr - self.base) % 8 == 0 && (addr - self.base) / 8
            < self.words@.len() {
            Some(self.words@[(addr - self.base) / 8])
        } else {
            None
        }
    }

    /// Writes a word that lies on the stack.
    pub fn write(&mut self, addr: u64, value: u64)
        requires
            old(self).word_at(addr as int) is Some,
        ensures
            final(self).word_at(addr as int) == Some(value),
            forall|x: int|
                x != addr ==> #[trigger] final(self).word_at(x) == old(self).word_at(x),
    {
        let i: u64 = (addr - self.base) / 8;
        assert(i < self.words.len());
        self.words.set(i as usize, value);
        assert(self.words@ == old(self).words@.update(i as int, value));
        assert forall|x: int| x != addr implies #[trigger] self.word_at(x) == old(self).word_at(
            x,
        ) by {
            if old(self).word_at(x) is Some {
                assert(8 * ((x - self.base) / 8) == x - self.base);
                assert(8 * ((addr - self.base) / 8) == addr - self.base);
            }
        }
    }

    /// Returns the word `below` bytes below an address, if it lies on the stack.
    pub fn read(&self, addr: u64, below: u64) -> (r: Option<u64>)
        ensures
            r == self.word_at(addr - below),
    {
        if addr < below {
            return None;
        }
        let at: u64 = addr - below;
        if at < self.base || (at - self.base) % 8 != 0 {
            return None;
        }
        let k: u64 = (at - self.base) / 8;
        if k < self.words.len() as u64 {
            Some(self.words[k as usize])
        } else {
            None
        }
    }
}

/// Lists how the kernel got where it is, from the frame pointer `fp` on.
pub fn backtrace(fp: u64, stack: &StackWords) -> (r: Vec<BacktraceLine>)
    ensures
        r@ == frames(|addr: int| stack.word_at(addr), fp, 0, KERNEL_FRAMES as nat),
{
    let ghost read = |addr: int| stack.word_at(addr);
    let mut lines: Vec<BacktraceLine> = Vec::new();
    let mut cur: u64 = fp;
    let mut depth: usize = 0;
    let ghost all = frames(read, fp, 0, KERNEL_FRAMES as nat);
    assert(lines@ + all =~= all);
    while cur != 0
        invariant
            depth <= KERNEL_FRAMES,
            read == (|addr: int| stack.word_at(addr)),
            all == frames(read, fp, 0, KERNEL_FRAMES as nat),
            all == lines@ + frames(read, cur, depth as nat, KERNEL_FRAMES as nat),
        decreases KERNEL_FRAMES - depth,
    {
        let ra: u64 = match stack.read(cur, 8) {
            Some(ra) => ra,
            None => {
                assert(read(cur - 8) is None);
                lines.push(BacktraceLine::Invalid(cur));
                assert(lines@ =~= all);
                return lines;
            },
        };
        assert(read(cur - 8) == Some(ra));
        if ra != 0 {
            lines.push(BacktraceLine::Addr(ra));
        }
        let prev: u64 = match stack.read(cur, 16) {
            Some(prev) => prev,
            None => {
                assert(read(cur - 16) is None);
                lines.push(BacktraceLine::Invalid(cur));
                assert(lines@ =~= all);
                return lines;
            },
        };
        assert(read(cur - 16) == Some(prev));
        if depth + 1 > KERNEL_FRAMES {
            lines.push(BacktraceLine::Truncated);
            assert(lines@ =~= all);
            return lines;
        }
        proof {
            let next = frames(read, prev, (depth + 1) as nat, KERNEL_FRAMES as nat);
            assert(lines@ + next =~= all);
        }
        cur = prev;
        depth = depth + 1;
    }
    assert(lines@ =~= all);
    lines
}

} // verus!
