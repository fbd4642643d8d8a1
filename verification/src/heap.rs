//! The arena: one fixed-length, zero-initialised buffer of bytes.

use vstd::bytes::{
    lemma_auto_spec_u64_to_from_le_bytes, spec_u64_from_le_bytes, spec_u64_to_le_bytes,
    u64_from_le_bytes, u64_to_le_bytes,
};
use vstd::prelude::*;
use vstd::slice::slice_subrange;

verus! {

/// Number of bytes that one stored word occupies.
pub const WORD_SIZE: usize = 8;

/// The word stored little-endian in the `WORD_SIZE` bytes of `bytes` that start at `at`.
pub open spec fn word_at(bytes: Seq<u8>, at: int) -> usize {
    spec_u64_from_le_bytes(bytes.subrange(at, at + WORD_SIZE)) as usize
}

/// Two buffers that agree on the bytes of a word hold the same word there.
pub proof fn lemma_word_at_agrees(a: Seq<u8>, b: Seq<u8>, at: int)
    requires
        0 <= at,
        at + WORD_SIZE <= a.len(),
        at + WORD_SIZE <= b.len(),
        forall|i: int| at <= i < at + WORD_SIZE ==> a[i] == b[i],
    ensures
        word_at(a, at) == word_at(b, at),
{
    assert(a.subrange(at, at + WORD_SIZE) =~= b.subrange(at, at + WORD_SIZE));
}

/// The backing storage of an allocator. It is never resized after `new`.
pub struct Heap {
    memory: Vec<u8>,
}

impl View for Heap {
    type V = Seq<u8>;

    closed spec fn view(&self) -> Seq<u8> {
        self.memory@
    }
}

impl Heap {
    /// An arena of `size` zero bytes. No buffer can hold more than
    /// `isize::MAX` bytes, so `size` may not exceed that.
    pub fn new(size: usize) -> (heap: Heap)
        requires
            size <= isize::MAX,
        ensures
            heap@.len() == size,
            forall|i: int| 0 <= i < size ==> heap@[i] == 0u8,
    {
        let memory: Vec<u8> = vec![0u8; size];
        Heap { memory }
    }

    /// The address of the first byte of the arena. Addresses are offsets into
    /// the arena, so this is always zero.
    pub fn start_ptr(&mut self) -> (start: usize)
        ensures
            start == 0,
            final(self)@ == old(self)@,
    {
        0
    }

    /// The fixed capacity of the arena in bytes.
    pub fn len(&self) -> (n: usize)
        ensures
            n == self@.len(),
    {
        self.memory.len()
    }

    /// The byte at address `at`.
    pub fn read(&self, at: usize) -> (value: u8)
        requires
            at < self@.len(),
        ensures
            value == self@[at as int],
    {
        self.memory[at]
    }

    /// Overwrites the byte at address `at`.
    pub fn write(&mut self, at: usize, value: u8)
        requires
            at < old(self)@.len(),
        ensures
            final(self)@ == old(self)@.update(at as int, value),
    {
        self.memory.set(at, value);
    }

    /// The word whose first byte is at address `at`.
    pub fn read_word(&self, at: usize) -> (value: usize)
        requires
            at + WORD_SIZE <= self@.len(),
        ensures
            value == word_at(self@, at as int),
    {
        let n: usize = self.memory.len();
        assert(at + WORD_SIZE <= n);
        let bytes = slice_subrange(self.memory.as_slice(), at, at + WORD_SIZE);
        let wide: u64 = u64_from_le_bytes(bytes);
        #[verifier::truncate]
        (wide as usize)
    }

    /// Stores `value` little-endian in the `WORD_SIZE` bytes from address `at` on.
    pub fn write_word(&mut self, at: usize, value: usize)
        requires
            at + WORD_SIZE <= old(self)@.len(),
        ensures
            final(self)@.len() == old(self)@.len(),
            final(self)@.subrange(at as int, at + WORD_SIZE) == spec_u64_to_le_bytes(value as u64),
            word_at(final(self)@, at as int) == value,
            forall|i: int|
                0 <= i < old(self)@.len() && !(at <= i < at + WORD_SIZE) ==> final(self)@[i] == old(
                    self,
                )@[i],
    {
        let n: usize = self.memory.len();
        let encoded: Vec<u8> = u64_to_le_bytes(value as u64);
        let mut k: usize = 0;
        while k < WORD_SIZE
            invariant
                k <= WORD_SIZE,
                at + WORD_SIZE <= self@.len(),
                self@.len() == n,
                self@.len() == old(self)@.len(),
                encoded@ == spec_u64_to_le_bytes(value as u64),
                encoded@.len() == WORD_SIZE,
                forall|i: int| 0 <= i < k ==> self@[at + i] == encoded@[i],
                forall|i: int|
                    0 <= i < self@.len() && !(at <= i < at + WORD_SIZE) ==> self@[i] == old(
                        self,
                    )@[i],
            decreases WORD_SIZE - k,
        {
            self.memory.set(at + k, encoded[k]);
            k = k + 1;
        }
        proof {
            lemma_auto_spec_u64_to_from_le_bytes();
            assert(self@.subrange(at as int, at + WORD_SIZE) =~= encoded@);
        }
    }
}

} // verus!
