//! A block-sized byte buffer.
use vstd::prelude::*;

verus! {

/// Size of a buffer made by `default`.
pub const DEFAULT_BUFFER_SIZE: usize = 1024;

/// A buffer of bytes, clear when made.
pub struct Buffer {
    buffer: Vec<u8>,
}

impl View for Buffer {
    type V = Seq<u8>;

    closed spec fn view(&self) -> Seq<u8> {
        self.buffer@
    }
}

impl Buffer {
    /// A clear buffer of `size` bytes.
    pub fn new(size: usize) -> (r: Buffer)
        ensures
            r@.len() == size,
            forall|i: int| 0 <= i < size ==> #[trigger] r@[i] == 0,
    {
        let mut buffer: Vec<u8> = Vec::new();
        let mut i: usize = 0;
        while i < size
            invariant
                i <= size,
                buffer@.len() == i,
                forall|j: int| 0 <= j < i ==> #[trigger] buffer@[j] == 0,
            decreases size - i,
        {
            buffer.push(0);
            i = i + 1;
        }
        Buffer { buffer }
    }

    /// A clear buffer of one block.
    pub fn default_block() -> (r: Buffer)
        ensures
            r@.len() == DEFAULT_BUFFER_SIZE,
            forall|i: int| 0 <= i < DEFAULT_BUFFER_SIZE ==> #[trigger] r@[i] == 0,
    {
        Buffer::new(DEFAULT_BUFFER_SIZE)
    }

    /// The bytes, to change.
    pub fn get_mut(&mut self) -> (r: &mut Vec<u8>)
        ensures
            r@ == old(self)@,
            final(self)@ == final(r)@,
    {
        &mut self.buffer
    }

    /// The bytes.
    pub fn get(&self) -> (r: &Vec<u8>)
        ensures
            r@ == self@,
    {
        &self.buffer
    }

    /// Number of bytes.
    pub fn len(&self) -> (r: usize)
        ensures
            r == self@.len(),
    {
        self.buffer.len()
    }

    /// Byte `i`.
    pub fn index(&self, i: usize) -> (r: u8)
        requires
            i < self@.len(),
        ensures
            r == self@[i as int],
    {
        self.buffer[i]
    }

    /// Sets byte `i`.
    pub fn set(&mut self, i: usize, v: u8)
        requires
            i < old(self)@.len(),
        ensures
            final(self)@ == old(self)@.update(i as int, v),
    {
        self.buffer.set(i, v);
    }
}

} // verus!
