//! The kernel shell's state.
use vstd::prelude::*;

verus! {

/// A shell: whether it still runs.
#[derive(Clone, Copy, Debug, PartialEq, Eq, Structural)]
pub struct Shell {
    pub running: bool,
}

impl Shell {
    /// A running shell.
    pub fn new() -> (r: Shell)
        ensures
            r.running,
    {
        Shell { running: true }
    }
}

} // verus!
