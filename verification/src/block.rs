//! The block descriptor and its fixed layout inside the arena.
//!
//! A descriptor occupies the `HEADER_SIZE` bytes directly in front of the
//! payload it describes: one word for the payload size, one byte for the free
//! flag (padded to a word), and one word for the link to the next free block.

use crate::heap::{lemma_word_at_agrees, word_at, Heap};
use vstd::prelude::*;

verus! {

/// Number of bytes a descriptor occupies in front of every payload.
pub const HEADER_SIZE: usize = 24;

/// Offset of the free flag inside a descriptor.
pub const FLAG_OFFSET: usize = 8;

/// Offset of the free-list link inside a descriptor.
pub const LINK_OFFSET: usize = 16;

/// The stored form of an absent link. No descriptor lies at this address.
pub const NO_LINK: usize = usize::MAX;

/// The metadata that prefixes every block of the arena.
#[derive(Clone, Copy, Debug)]
pub struct BlockHeader {
    /// Bytes of payload that follow the descriptor.
    pub size: usize,
    /// Whether the block is free.
    pub is_free: bool,
    /// Address of the descriptor of the next free block; meaningful only
    /// while the block is free.
    pub next: Option<usize>,
}

/// The link that a stored word stands for.
pub open spec fn link_of_word(word: usize) -> Option<usize> {
    if word == NO_LINK {
        None
    } else {
        Some(word)
    }
}

/// The descriptor stored in the `HEADER_SIZE` bytes of `bytes` that start at `at`.
pub open spec fn header_at(bytes: Seq<u8>, at: int) -> BlockHeader {
    BlockHeader {
        size: word_at(bytes, at),
        is_free: bytes[at + FLAG_OFFSET] != 0u8,
        next: link_of_word(word_at(bytes, at + LINK_OFFSET)),
    }
}

/// Two buffers that agree on the bytes of a descriptor hold the same descriptor there.
pub proof fn lemma_header_at_agrees(a: Seq<u8>, b: Seq<u8>, at: int)
    requires
        0 <= at,
        at + HEADER_SIZE <= a.len(),
        at + HEADER_SIZE <= b.len(),
        forall|i: int| at <= i < at + HEADER_SIZE ==> a[i] == b[i],
    ensures
        header_at(a, at) == header_at(b, at),
{
    lemma_word_at_agrees(a, b, at);
    lemma_word_at_agrees(a, b, at + LINK_OFFSET);
}

impl BlockHeader {
    /// The descriptor of a fresh free block with `size` bytes of payload and no successor.
    pub fn new(size: usize) -> (header: BlockHeader)
        ensures
            header.size == size,
            header.is_free,
            header.next is None,
    {
        BlockHeader { size, is_free: true, next: None }
    }

    /// Whether the descriptor survives being stored: its link, if present,
    /// is not the reserved address.
    pub open spec fn storable(&self) -> bool {
        self.next != Some(NO_LINK)
    }

    /// Reads the descriptor stored at address `at`.
    pub fn load(heap: &Heap, at: usize) -> (header: BlockHeader)
        requires
            at + HEADER_SIZE <= heap@.len(),
        ensures
            header == header_at(heap@, at as int),
    {
        let n: usize = heap.len();
        let size: usize = heap.read_word(at);
        let flag: u8 = heap.read(at + FLAG_OFFSET);
        let link: usize = heap.read_word(at + LINK_OFFSET);
        BlockHeader {
            size,
            is_free: flag != 0,
            next: if link == NO_LINK {
                None
            } else {
                Some(link)
            },
        }
    }

    /// Writes the descriptor to address `at`, leaving every byte outside the
    /// descriptor's own `HEADER_SIZE` bytes as it was.
    pub fn store(&self, heap: &mut Heap, at: usize)
        requires
            at + HEADER_SIZE <= old(heap)@.len(),
            self.storable(),
        ensures
            final(heap)@.len() == old(heap)@.len(),
            header_at(final(heap)@, at as int) == *self,
            final(heap)@[at + FLAG_OFFSET] == if self.is_free {
                1u8
            } else {
                0u8
            },
            forall|i: int|
                at + FLAG_OFFSET < i < at + LINK_OFFSET ==> final(heap)@[i] == old(heap)@[i],
            forall|i: int|
                0 <= i < old(heap)@.len() && !(at <= i < at + HEADER_SIZE) ==> final(heap)@[i]
                    == old(heap)@[i],
    {
        let n: usize = heap.len();
        heap.write_word(at, self.size);
        let ghost sized = heap@;
        heap.write(at + FLAG_OFFSET, if self.is_free { 1u8 } else { 0u8 });
        let link: usize = match self.next {
            Some(address) => address,
            None => NO_LINK,
        };
        heap.write_word(at + LINK_OFFSET, link);
        proof {
            lemma_word_at_agrees(sized, heap@, at as int);
        }
    }
}

} // verus!
