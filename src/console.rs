//! Console input: the bytes typed that no process read yet, and the
//! processes waiting for them.
use vstd::prelude::*;

verus! {

/// Bytes typed and not read yet, and the pids of processes waiting for input.
#[derive(Clone, Debug)]
pub struct Console {
    pub in_buffer: Vec<u8>,
    pub waiters: Vec<u16>,
}

impl Console {
    /// No input and no waiters.
    pub fn new() -> (r: Console)
        ensures
            r.in_buffer@.len() == 0,
            r.waiters@.len() == 0,
    {
        Console { in_buffer: Vec::new(), waiters: Vec::new() }
    }

    /// Appends a typed byte.
    pub fn push_stdin(&mut self, c: u8)
        ensures
            final(self).in_buffer@ == old(self).in_buffer@.push(c),
            final(self).waiters@ == old(self).waiters@,
    {
        self.in_buffer.push(c);
    }

    /// Adds a process that waits for input.
    pub fn push_queue(&mut self, pid: u16)
        ensures
            final(self).waiters@ == old(self).waiters@.push(pid),
            final(self).in_buffer@ == old(self).in_buffer@,
    {
        self.waiters.push(pid);
    }

    /// Hands back the waiting processes and forgets them.
    pub fn take_waiters(&mut self) -> (r: Vec<u16>)
        ensures
            r@ == old(self).waiters@,
            final(self).waiters@.len() == 0,
            final(self).in_buffer@ == old(self).in_buffer@,
    {
        let mut r: Vec<u16> = Vec::new();
        std::mem::swap(&mut r, &mut self.waiters);
        r
    }

    /// Takes the first `n` bytes of input.
    pub fn drain(&mut self, n: usize) -> (r: Vec<u8>)
        requires
            n <= old(self).in_buffer@.len(),
        ensures
            r@ == old(self).in_buffer@.subrange(0, n as int),
            final(self).in_buffer@ == old(self).in_buffer@.subrange(n as int, old(self).in_buffer@.len() as int),
            final(self).waiters@ == old(self).waiters@,
    {
        let mut rest = self.in_buffer.split_off(n);
        std::mem::swap(&mut rest, &mut self.in_buffer);
        rest
    }
}

} // verus!
