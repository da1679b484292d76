//! Standard input, output and error.
//!
//! What is to be written is first kept in a buffer; each operation returns the bytes
//! that go out.
use crate::bytes::{copy_bytes, copy_part};
use crate::types::RawFd;
use vstd::prelude::*;

verus! {

/// Descriptor of standard input.
pub const STDIN_FD: usize = 0;

/// Descriptor of standard output.
pub const STDOUT_FD: usize = 1;

/// Descriptor of standard error.
pub const STDERR_FD: usize = 2;

/// Bytes that a buffer holds.
pub const DEFAULT_BUF_SIZE: usize = 1024;

/// Newline
pub const NEWLINE: u8 = 0x0a;

/// Whether there is a newline in a sequence of bytes.
pub open spec fn has_newline(bytes: Seq<u8>) -> bool {
    bytes.contains(NEWLINE)
}

/// How many bytes there are up to the last newline, with it.
pub open spec fn lines_len(bytes: Seq<u8>) -> int
    decreases bytes.len(),
{
    if bytes.len() == 0 || bytes.last() == NEWLINE {
        bytes.len() as int
    } else {
        lines_len(bytes.drop_last())
    }
}

proof fn lemma_lines_len(bytes: Seq<u8>)
    ensures
        0 <= lines_len(bytes) <= bytes.len(),
        forall|i: int| lines_len(bytes) <= i < bytes.len() ==> #[trigger] bytes[i] != NEWLINE,
    decreases bytes.len(),
{
    if bytes.len() > 0 && bytes.last() != NEWLINE {
        let front = bytes.drop_last();
        lemma_lines_len(front);
        assert forall|i: int| lines_len(bytes) <= i < bytes.len() implies #[trigger] bytes[i]
            != NEWLINE by {
            if i < front.len() {
                assert(front[i] == bytes[i]);
            }
        }
    }
}

/// How many bytes there are up to the last newline.
fn complete_lines(bytes: &[u8]) -> (r: usize)
    ensures
        r == lines_len(bytes@),
{
    let mut n: usize = bytes.len();
    assert(bytes@.take(n as int) =~= bytes@);
    while n > 0 && bytes[n - 1] != NEWLINE
        invariant
            n <= bytes@.len(),
            lines_len(bytes@) == lines_len(bytes@.take(n as int)),
        decreases n,
    {
        n = n - 1;
        assert(bytes@.take(n + 1).drop_last() =~= bytes@.take(n as int));
    }
    n
}

/// A buffer that lets lines out as soon as they are complete.
pub struct LineWriter {
    pub buf: Vec<u8>,
    pub capacity: usize,
}

impl LineWriter {
    /// Whether the buffer holds no complete line, and no more than it can.
    pub open spec fn wf(self) -> bool {
        &&& self.buf@.len() <= self.capacity
        &&& !has_newline(self.buf@)
    }

    /// Returns an empty buffer of a size.
    pub fn with_capacity(capacity: usize) -> (r: Self)
        ensures
            r.wf(),
            r.buf@ == Seq::<u8>::empty(),
            r.capacity == capacity,
    {
        LineWriter { buf: Vec::new(), capacity }
    }

    /// What is let out when bytes are written.
    pub open spec fn let_out(self, bytes: Seq<u8>) -> Seq<u8> {
        let all = self.buf@ + bytes;
        if all.len() - lines_len(all) > self.capacity {
            all
        } else {
            all.take(lines_len(all))
        }
    }

    /// Writes bytes, and returns what is let out: all complete lines, and the rest too
    /// if it does not fit into the buffer.
    pub fn write(&mut self, bytes: &[u8]) -> (r: Vec<u8>)
        requires
            old(self).wf(),
        ensures
            final(self).wf(),
            final(self).capacity == old(self).capacity,
            r@ == old(self).let_out(bytes@),
            r@ + final(self).buf@ == old(self).buf@ + bytes@,
    {
        let ghost before = self.buf@;
        let mut all: Vec<u8> = copy_bytes(self.buf.as_slice());
        let mut more: Vec<u8> = copy_bytes(bytes);
        all.append(&mut more);
        assert(all@ =~= before + bytes@);
        let n: usize = complete_lines(all.as_slice());
        proof {
            lemma_lines_len(all@);
        }
        if all.len() - n > self.capacity {
            self.buf = Vec::new();
            assert(all@ + self.buf@ =~= all@);
            return all;
        }
        self.buf = copy_part(all.as_slice(), n, all.len());
        let r: Vec<u8> = copy_part(all.as_slice(), 0, n);
        assert(r@ =~= all@.take(n as int));
        assert(r@ + self.buf@ =~= all@);
        r
    }

    /// Lets out all that the buffer holds.
    pub fn flush(&mut self) -> (r: Vec<u8>)
        requires
            old(self).wf(),
        ensures
            final(self).wf(),
            final(self).capacity == old(self).capacity,
            r@ == old(self).buf@,
            final(self).buf@ == Seq::<u8>::empty(),
    {
        let r: Vec<u8> = copy_bytes(self.buf.as_slice());
        self.buf = Vec::new();
        r
    }
}

/// Standard output.
pub struct Stdout {
    pub inner: LineWriter,
    pub is_terminal: bool,
}

/// Standard output, held by one user.
pub struct StdoutLock {
    pub inner: LineWriter,
    pub is_terminal: bool,
}

/// Opens standard output.
pub fn stdout(is_terminal: bool) -> (r: Stdout)
    ensures
        r.inner.wf(),
        r.inner.buf@ == Seq::<u8>::empty(),
        r.inner.capacity == DEFAULT_BUF_SIZE,
        r.is_terminal == is_terminal,
{
    Stdout { inner: LineWriter::with_capacity(DEFAULT_BUF_SIZE), is_terminal }
}

/// What goes out when bytes are written to standard output: everything if it is a
/// terminal.
pub open spec fn output(inner: LineWriter, is_terminal: bool, bytes: Seq<u8>) -> Seq<u8> {
    if is_terminal {
        inner.buf@ + bytes
    } else {
        inner.let_out(bytes)
    }
}

impl Stdout {
    /// Returns the descriptor.
    pub fn as_raw_fd(&self) -> (r: RawFd)
        ensures
            r.0 == STDOUT_FD,
    {
        RawFd::new(STDOUT_FD)
    }

    /// Whether standard output is a terminal.
    pub fn is_terminal(&self) -> (r: bool)
        ensures
            r == self.is_terminal,
    {
        self.is_terminal
    }

    /// Takes standard output for one user.
    pub fn lock(self) -> (r: StdoutLock)
        ensures
            r.inner == self.inner,
            r.is_terminal == self.is_terminal,
    {
        StdoutLock { inner: self.inner, is_terminal: self.is_terminal }
    }

    /// Writes bytes.
    pub fn write(&mut self, bytes: &[u8]) -> (r: Vec<u8>)
        requires
            old(self).inner.wf(),
        ensures
            final(self).inner.wf(),
            final(self).is_terminal == old(self).is_terminal,
            final(self).inner.capacity == old(self).inner.capacity,
            r@ == output(old(self).inner, old(self).is_terminal, bytes@),
            r@ + final(self).inner.buf@ == old(self).inner.buf@ + bytes@,
    {
        let ghost all = self.inner.buf@ + bytes@;
        let mut r: Vec<u8> = self.inner.write(bytes);
        if self.is_terminal {
            let mut rest: Vec<u8> = self.inner.flush();
            r.append(&mut rest);
            assert(r@ =~= all);
            assert(r@ + self.inner.buf@ =~= all);
        }
        r
    }

    /// Lets out all that has been written.
    pub fn flush(&mut self) -> (r: Vec<u8>)
        requires
            old(self).inner.wf(),
        ensures
            final(self).inner.wf(),
            final(self).is_terminal == old(self).is_terminal,
            final(self).inner.capacity == old(self).inner.capacity,
            r@ == old(self).inner.buf@,
            final(self).inner.buf@ == Seq::<u8>::empty(),
    {
        self.inner.flush()
    }

    /// Lets out all that has been written when the program ends, and keeps nothing in
    /// the buffer from then on.
    pub fn cleanup(&mut self) -> (r: Vec<u8>)
        requires
            old(self).inner.wf(),
        ensures
            final(self).inner.wf(),
            final(self).is_terminal == old(self).is_terminal,
            r@ == old(self).inner.buf@,
            final(self).inner.buf@ == Seq::<u8>::empty(),
            final(self).inner.capacity == 0,
    {
        let r: Vec<u8> = self.inner.flush();
        self.inner = LineWriter::with_capacity(0);
        r
    }
}

impl StdoutLock {
    /// Gives standard output back.
    pub fn unlock(self) -> (r: Stdout)
        ensures
            r.inner == self.inner,
            r.is_terminal == self.is_terminal,
    {
        Stdout { inner: self.inner, is_terminal: self.is_terminal }
    }

    /// Writes bytes.
    pub fn write(&mut self, bytes: &[u8]) -> (r: Vec<u8>)
        requires
            old(self).inner.wf(),
        ensures
            final(self).inner.wf(),
            final(self).is_terminal == old(self).is_terminal,
            final(self).inner.capacity == old(self).inner.capacity,
            r@ == output(old(self).inner, old(self).is_terminal, bytes@),
            r@ + final(self).inner.buf@ == old(self).inner.buf@ + bytes@,
    {
        let ghost all = self.inner.buf@ + bytes@;
        let mut r: Vec<u8> = self.inner.write(bytes);
        if self.is_terminal {
            let mut rest: Vec<u8> = self.inner.flush();
            r.append(&mut rest);
            assert(r@ =~= all);
            assert(r@ + self.inner.buf@ =~= all);
        }
        r
    }
}

/// Once the program has ended its output, whatever is written goes out at once.
pub proof fn law_nothing_kept_after_cleanup(inner: LineWriter, is_terminal: bool, bytes: Seq<u8>)
    requires
        inner.wf(),
        inner.capacity == 0,
    ensures
        output(inner, is_terminal, bytes) == bytes,
{
    let all = inner.buf@ + bytes;
    assert(all =~= bytes);
    lemma_lines_len(all);
    if lines_len(all) == all.len() {
        assert(all.take(lines_len(all)) =~= all);
    }
}

/// Complete lines go out at once.
pub proof fn law_lines_go_out(inner: LineWriter, is_terminal: bool, bytes: Seq<u8>)
    requires
        bytes.len() > 0,
        bytes.last() == NEWLINE,
    ensures
        output(inner, is_terminal, bytes) == inner.buf@ + bytes,
{
    let all = inner.buf@ + bytes;
    assert(all.last() == NEWLINE);
    assert(all.take(all.len() as int) =~= all);
}

/// Standard error.
pub struct Stderr {}

/// Standard error, held by one user.
pub struct StderrLock {}

/// Opens standard error.
pub fn stderr() -> Stderr {
    Stderr {  }
}

impl Stderr {
    /// Returns the descriptor.
    pub fn as_raw_fd(&self) -> (r: RawFd)
        ensures
            r.0 == STDERR_FD,
    {
        RawFd::new(STDERR_FD)
    }

    /// Takes standard error for one user.
    pub fn lock(self) -> StderrLock {
        StderrLock {  }
    }

    /// Writes bytes, which go out at once.
    pub fn write(&mut self, bytes: &[u8]) -> (r: Vec<u8>)
        ensures
            r@ == bytes@,
    {
        copy_bytes(bytes)
    }
}

impl StderrLock {
    /// Writes bytes, which go out at once.
    pub fn write(&mut self, bytes: &[u8]) -> (r: Vec<u8>)
        ensures
            r@ == bytes@,
    {
        copy_bytes(bytes)
    }
}

/// Standard input: what has come in and has not been read.
pub struct Stdin {
    pub buf: Vec<u8>,
}

/// Standard input, held by one user.
pub struct StdinLock {
    pub buf: Vec<u8>,
}

/// Opens standard input.
pub fn stdin() -> (r: Stdin)
    ensures
        r.buf@ == Seq::<u8>::empty(),
{
    Stdin { buf: Vec::new() }
}

/// How many bytes the first line has, with its newline; all of them if there is no
/// newline.
pub open spec fn first_line(bytes: Seq<u8>) -> int
    decreases bytes.len(),
{
    if bytes.len() == 0 {
        0
    } else if bytes[0] == NEWLINE {
        1
    } else {
        1 + first_line(bytes.skip(1))
    }
}

proof fn lemma_first_line(bytes: Seq<u8>)
    ensures
        0 <= first_line(bytes) <= bytes.len(),
        bytes.len() > 0 ==> first_line(bytes) > 0,
        has_newline(bytes) ==> bytes[first_line(bytes) - 1] == NEWLINE,
        !has_newline(bytes) ==> first_line(bytes) == bytes.len(),
    decreases bytes.len(),
{
    if bytes.len() > 0 && bytes[0] != NEWLINE {
        let rest = bytes.skip(1);
        lemma_first_line(rest);
        if has_newline(bytes) {
            let i = choose|i: int| 0 <= i < bytes.len() && bytes[i] == NEWLINE;
            assert(rest[i - 1] == NEWLINE);
            assert(rest[first_line(rest) - 1] == bytes[first_line(rest)]);
        } else {
            assert forall|i: int| 0 <= i < rest.len() implies rest[i] != NEWLINE by {
                assert(rest[i] == bytes[i + 1]);
            }
        }
    } else if bytes.len() > 0 {
        assert(bytes[0] == NEWLINE);
    }
}

impl Stdin {
    /// Returns the descriptor.
    pub fn as_raw_fd(&self) -> (r: RawFd)
        ensures
            r.0 == STDIN_FD,
    {
        RawFd::new(STDIN_FD)
    }

    /// Takes standard input for one user.
    pub fn lock(self) -> (r: StdinLock)
        ensures
            r.buf == self.buf,
    {
        StdinLock { buf: self.buf }
    }

    /// Takes in bytes.
    pub fn feed(&mut self, bytes: &[u8])
        ensures
            final(self).buf@ == old(self).buf@ + bytes@,
    {
        let mut more: Vec<u8> = copy_bytes(bytes);
        self.buf.append(&mut more);
    }

    /// Reads a line, with its newline. At the end of the input it may have none. There
    /// is none to read yet if more may come in and no newline has.
    pub fn read_line(&mut self, at_end: bool) -> (r: Option<Vec<u8>>)
        ensures
            !has_newline(old(self).buf@) && !at_end ==> r is None && final(self).buf@ == old(
                self,
            ).buf@,
            has_newline(old(self).buf@) || at_end ==> (r matches Some(line) && line@ == old(
                self,
            ).buf@.take(first_line(old(self).buf@)) && line@ + final(self).buf@ == old(self).buf@),
    {
        let ghost before = self.buf@;
        let mut n: usize = 0;
        let mut found: bool = false;
        assert(before.skip(0) =~= before);
        while n < self.buf.len() && !found
            invariant
                before == self.buf@,
                n <= before.len(),
                forall|i: int| 0 <= i < n - 1 ==> before[i] != NEWLINE,
                found ==> n > 0 && before[n - 1] == NEWLINE && first_line(before) == n,
                !found ==> first_line(before) == n + first_line(before.skip(n as int)),
                !found ==> forall|i: int| 0 <= i < n ==> before[i] != NEWLINE,
            decreases self.buf@.len() - n,
        {
            assert(before.skip(n as int)[0] == before[n as int]);
            assert(before.skip(n as int).skip(1) =~= before.skip(n + 1));
            if self.buf[n] == NEWLINE {
                found = true;
            }
            n = n + 1;
        }
        proof {
            lemma_first_line(before);
        }
        if !found && !at_end {
            return None;
        }
        if !found {
            assert(n == before.len());
        }
        let line: Vec<u8> = copy_part(self.buf.as_slice(), 0, n);
        self.buf = copy_part(self.buf.as_slice(), n, self.buf.len());
        assert(line@ =~= before.take(n as int));
        assert(line@ + self.buf@ =~= before);
        Some(line)
    }

    /// Reads at most `len` bytes.
    pub fn read(&mut self, len: usize) -> (r: Vec<u8>)
        ensures
            r@ == old(self).buf@.take(
                if len <= old(self).buf@.len() {
                    len as int
                } else {
                    old(self).buf@.len() as int
                },
            ),
            r@ + final(self).buf@ == old(self).buf@,
            r@.len() <= len,
            used_up(old(self).buf@, final(self).buf@, r@.len()),
    {
        let ghost before = self.buf@;
        let n: usize = if len <= self.buf.len() {
            len
        } else {
            self.buf.len()
        };
        let r: Vec<u8> = copy_part(self.buf.as_slice(), 0, n);
        self.buf = copy_part(self.buf.as_slice(), n, self.buf.len());
        assert(r@ =~= before.take(n as int));
        assert(r@ + self.buf@ =~= before);
        r
    }
}

impl StdinLock {
    /// Gives standard input back.
    pub fn unlock(self) -> (r: Stdin)
        ensures
            r.buf == self.buf,
    {
        Stdin { buf: self.buf }
    }

    /// What has come in and has not been read.
    pub fn fill_buf(&self) -> (r: &[u8])
        ensures
            r@ == self.buf@,
    {
        self.buf.as_slice()
    }

    /// Drops bytes that have been read.
    pub fn consume(&mut self, amt: usize)
        requires
            amt <= old(self).buf@.len(),
        ensures
            final(self).buf@ == old(self).buf@.skip(amt as int),
            used_up(old(self).buf@, final(self).buf@, amt as nat),
    {
        let ghost before = self.buf@;
        self.buf = copy_part(self.buf.as_slice(), amt, self.buf.len());
        assert(self.buf@ =~= before.skip(amt as int));
    }
}

/// What is written goes out in order and at some time: what goes out at once is the
/// beginning of what was kept and what is written, and the rest is kept. If it is not a
/// terminal, what goes out ends with a line, and what is kept holds no line, unless the rest
/// does not fit into the buffer. Nothing goes out that need not.
pub proof fn law_output(inner: LineWriter, bytes: Seq<u8>)
    ensures
        ({
            let all = inner.buf@ + bytes;
            let out = output(inner, false, bytes);
            &&& out.is_prefix_of(all)
            &&& out.len() < all.len() ==> {
                &&& all.len() - out.len() <= inner.capacity
                &&& forall|i: int| out.len() <= i < all.len() ==> #[trigger] all[i] != 0x0a
                &&& out.len() > 0 ==> out.last() == 0x0a
            }
            &&& out.len() == all.len() && out.len() > 0 && out.last() != 0x0a ==> {
                let n = lines_len(all);
                &&& all.len() - n > inner.capacity
                &&& forall|i: int| n <= i < all.len() ==> #[trigger] all[i] != 0x0a
            }
        }),
        output(inner, true, bytes) == inner.buf@ + bytes,
{
    let all = inner.buf@ + bytes;
    lemma_lines_len(all);
    lemma_line_end(all);
    let out = output(inner, false, bytes);
    assert(all.subrange(0, out.len() as int) =~= out);
}

/// Where lines end, there is a newline.
proof fn lemma_line_end(bytes: Seq<u8>)
    ensures
        lines_len(bytes) > 0 ==> bytes[lines_len(bytes) - 1] == NEWLINE,
    decreases bytes.len(),
{
    if bytes.len() > 0 && bytes.last() != NEWLINE {
        lemma_line_end(bytes.drop_last());
        lemma_lines_len(bytes.drop_last());
    }
}

/// A part of a line is kept as long as it fits into the buffer.
pub proof fn law_part_of_line_kept(inner: LineWriter, bytes: Seq<u8>)
    requires
        forall|i: int| 0 <= i < inner.buf@.len() ==> #[trigger] inner.buf@[i] != 0x0a,
        forall|i: int| 0 <= i < bytes.len() ==> #[trigger] bytes[i] != 0x0a,
        inner.buf@.len() + bytes.len() <= inner.capacity,
    ensures
        output(inner, false, bytes).len() == 0,
{
    let all = inner.buf@ + bytes;
    lemma_lines_len(all);
    lemma_line_end(all);
}

/// The first line ends with the first newline, or where there is none with the last byte.
pub proof fn law_first_line(bytes: Seq<u8>)
    ensures
        0 <= first_line(bytes) <= bytes.len(),
        forall|i: int| 0 <= i < first_line(bytes) - 1 ==> #[trigger] bytes[i] != 0x0a,
        first_line(bytes) < bytes.len() ==> bytes[first_line(bytes) - 1] == 0x0a,
        bytes.len() > 0 ==> first_line(bytes) > 0,
    decreases bytes.len(),
{
    lemma_first_line(bytes);
    if bytes.len() > 0 && bytes[0] != NEWLINE {
        let rest = bytes.skip(1);
        law_first_line(rest);
        assert forall|i: int| 0 <= i < first_line(bytes) - 1 implies #[trigger] bytes[i]
            != 0x0a by {
            if i > 0 {
                assert(rest[i - 1] == bytes[i]);
            }
        }
        if first_line(bytes) < bytes.len() {
            assert(rest[first_line(rest) - 1] == bytes[first_line(bytes) - 1]);
        }
    }
}

/// There is a newline in bytes if one of them is one.
pub proof fn law_has_newline(bytes: Seq<u8>)
    ensures
        has_newline(bytes) <==> exists|i: int| 0 <= i < bytes.len() && #[trigger] bytes[i] == 0x0a,
{
    if has_newline(bytes) {
        let i = bytes.index_of(NEWLINE);
        assert(bytes[i] == 0x0a);
    }
}

/// Whether the first `n` bytes have been taken out.
pub open spec fn used_up(before: Seq<u8>, after: Seq<u8>, n: nat) -> bool {
    after == before.skip(n as int)
}

/// What is left once bytes have been taken out is what followed them; taking out some and
/// then others is taking out all of them.
pub proof fn law_used_up(before: Seq<u8>, between: Seq<u8>, after: Seq<u8>, m: nat, n: nat, i: int)
    requires
        m + n <= before.len(),
        used_up(before, between, m),
        used_up(between, after, n),
    ensures
        between.len() == before.len() - m,
        0 <= i < between.len() ==> between[i] == before[m + i],
        used_up(before, after, m + n),
{
    assert(after =~= before.skip((m + n) as int));
}

} // verus!
