//! A mutual-exclusion lock for the single hart.
use vstd::prelude::*;
use crate::syscall::{Syscall, sleep, SYSCALL_SLEEP};

verus! {

/// Milliseconds that `sleep_lock` sleeps between two tries.
pub const DEFAULT_LOCK_SLEEP: u64 = 1000;

/// States of a lock.
#[derive(Clone, Copy, Debug, PartialEq, Eq, Structural)]
pub enum MutexState {
    Unlocked,
    Locked,
}

/// A lock.
#[derive(Clone, Copy, Debug, PartialEq, Eq, Structural)]
pub struct Mutex {
    state: MutexState,
}

impl View for Mutex {
    type V = MutexState;

    closed spec fn view(&self) -> MutexState {
        self.state
    }
}

impl Mutex {
    /// An unlocked lock.
    pub fn new() -> (r: Mutex)
        ensures
            r@ == MutexState::Unlocked,
    {
        Mutex { state: MutexState::Unlocked }
    }

    /// The state of the lock.
    pub fn val(&self) -> (r: &MutexState)
        ensures
            *r == self@,
    {
        &self.state
    }

    /// Takes the lock where it is free; whether it was. The lock is held
    /// afterwards either way.
    pub fn try_lock(&mut self) -> (r: bool)
        ensures
            r == (old(self)@ == MutexState::Unlocked),
            final(self)@ == MutexState::Locked,
    {
        let was = self.state;
        self.state = MutexState::Locked;
        match was {
            MutexState::Unlocked => true,
            MutexState::Locked => false,
        }
    }

    /// One try of a sleeping lock: `None` where the lock was taken, else the
    /// sleep the caller makes before it tries again.
    pub fn sleep_lock(&mut self) -> (r: Option<Syscall>)
        ensures
            final(self)@ == MutexState::Locked,
            r.is_none() == (old(self)@ == MutexState::Unlocked),
            r.is_some() ==> r->0.number == SYSCALL_SLEEP && r->0.arg0 == DEFAULT_LOCK_SLEEP,
    {
        if self.try_lock() {
            None
        } else {
            Some(sleep(DEFAULT_LOCK_SLEEP))
        }
    }

    /// One try of a spinning lock: whether the lock was taken; the caller
    /// tries again until it was.
    pub fn spin_lock(&mut self) -> (r: bool)
        ensures
            final(self)@ == MutexState::Locked,
            r == (old(self)@ == MutexState::Unlocked),
    {
        self.try_lock()
    }

    /// Frees the lock.
    pub fn unlock(&mut self)
        ensures
            final(self)@ == MutexState::Unlocked,
    {
        self.state = MutexState::Unlocked;
    }
}

} // verus!
