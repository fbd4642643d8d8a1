//! The allocator: its state, its invariant and its public operations.

use crate::block::{header_at, lemma_header_at_agrees, BlockHeader, HEADER_SIZE};
use crate::free_list::{lemma_ascending_determined, lemma_store_frame};
use crate::heap::Heap;
use crate::layout::{
    block_end, carved, coalesced, fits, is_first_fit, leaves_remainder,
    lemma_all_free_is_one_block, lemma_allocated_blocks_determine_layout, lemma_carved_tiles,
    lemma_needed_span, lemma_released_tiles, live_payloads_kept, marked_free, needed_span, no_fit, payloads_kept,
    released, tiles, Block,
};
use vstd::arithmetic::power2::{lemma2_to64, lemma_pow2_pos, pow2};
use vstd::bits::{lemma_usize_low_bits_mask_is_mod, low_bits_mask};
use vstd::prelude::*;

verus! {

/// The alignment, in bytes, of every descriptor and every payload: one word.
pub const ALIGN: usize = 8;

/// Whether `n` is a power of two.
pub open spec fn is_power_of_two(n: usize) -> bool {
    exists|e: nat| e < usize::BITS && n == pow2(e)
}

/// The least multiple of `align` that is not below `num`.
pub open spec fn round_up(num: int, align: int) -> int {
    ((num + align - 1) / align) * align
}

/// The link that the free-list entry at position `k` stores: the next entry,
/// if there is one.
pub open spec fn link_after(free: Seq<int>, k: int) -> Option<usize> {
    if k + 1 < free.len() {
        Some(free[k + 1] as usize)
    } else {
        None
    }
}

/// Whether the entries of `free` are in strictly ascending order.
pub open spec fn ascending(free: Seq<int>) -> bool {
    forall|j: int, k: int| 0 <= j < k < free.len() ==> #[trigger] free[j] < #[trigger] free[k]
}

/// Whether the descriptor of each entry of `free`, as stored in `bytes`,
/// links to the next entry, and that of the last entry to none.
pub open spec fn chained(bytes: Seq<u8>, free: Seq<int>) -> bool {
    forall|k: int|
        0 <= k < free.len() ==> header_at(bytes, free[k]).next == #[trigger] link_after(free, k)
}

/// A first-fit allocator that owns its arena.
///
/// The descriptors live in the arena; the free blocks are chained through
/// their descriptors in ascending address order, starting at `free_list`.
pub struct Allocator {
    /// The arena, descriptors and payloads alike.
    pub(crate) heap: Heap,
    /// Address of the descriptor of the first free block, if any block is free.
    pub(crate) free_list: Option<usize>,
    /// The blocks that the arena is divided into, by descriptor address.
    pub(crate) blocks: Ghost<Map<int, Block>>,
    /// The descriptor addresses that the free list runs through, in order.
    pub(crate) free: Ghost<Seq<int>>,
}

impl Allocator {
    /// The contents of the arena.
    pub closed spec fn bytes(&self) -> Seq<u8> {
        self.heap@
    }

    /// The number of bytes in the arena.
    pub open spec fn capacity(&self) -> nat {
        self.bytes().len()
    }

    /// The blocks that the arena is divided into, by descriptor address.
    pub closed spec fn blocks(&self) -> Map<int, Block> {
        self.blocks@
    }

    /// The descriptor addresses on the free list, in list order.
    pub closed spec fn free_list(&self) -> Seq<int> {
        self.free@
    }

    /// The address of the first descriptor on the free list.
    pub closed spec fn head(&self) -> Option<usize> {
        self.free_list
    }

    /// The descriptor stored in the arena at address `at`.
    pub open spec fn header(&self, at: int) -> BlockHeader {
        header_at(self.bytes(), at)
    }

    /// Whether `ptr` is the payload address of a block that is allocated now.
    pub open spec fn allocated(&self, ptr: int) -> bool {
        self.blocks().dom().contains(ptr - HEADER_SIZE) && !self.blocks()[ptr
            - HEADER_SIZE].is_free
    }

    /// The payload bytes of the block whose payload starts at `ptr`.
    pub open spec fn payload(&self, ptr: int) -> Seq<u8> {
        self.bytes().subrange(ptr, ptr + self.blocks()[ptr - HEADER_SIZE].size)
    }

    /// The stored descriptors agree with the blocks on size and free flag.
    pub(crate) open spec fn headers_match(&self) -> bool {
        forall|a: int| #[trigger]
            self.blocks@.dom().contains(a) ==> header_at(self.heap@, a).size
                == self.blocks@[a].size && header_at(self.heap@, a).is_free
                == self.blocks@[a].is_free
    }

    /// The free list is an ascending chain of free blocks that starts at `free_list`.
    pub(crate) open spec fn linked(&self) -> bool {
        &&& forall|k: int|
            0 <= k < self.free@.len() ==> self.blocks@.dom().contains(#[trigger] self.free@[k])
                && self.blocks@[self.free@[k]].is_free
        &&& ascending(self.free@)
        &&& self.free_list == if self.free@.len() > 0 {
            Some(self.free@[0] as usize)
        } else {
            None
        }
        &&& chained(self.heap@, self.free@)
    }

    /// What holds between any two steps of an operation: the blocks divide
    /// the arena, the stored descriptors agree with them, and the free list
    /// is an ascending chain of free blocks.
    #[verifier::opaque]
    pub(crate) open spec fn inv(&self) -> bool {
        &&& self.heap@.len() <= isize::MAX
        &&& tiles(self.blocks@, self.heap@.len() as int)
        &&& self.headers_match()
        &&& self.linked()
    }

    /// Every free block is on the free list.
    pub(crate) open spec fn all_free_listed(&self) -> bool {
        forall|a: int| #[trigger]
            self.blocks@.dom().contains(a) && self.blocks@[a].is_free ==> self.free@.contains(a)
    }

    /// The allocator's invariant. It holds before and after every public operation.
    pub closed spec fn wf(&self) -> bool {
        &&& self.inv()
        &&& self.all_free_listed()
        &&& coalesced(self.blocks@)
    }
}

impl Allocator {
    /// An allocator over a fresh arena of `heap_size` bytes, all of it one
    /// free block. The arena must have room for more than one descriptor.
    pub fn new(heap_size: usize) -> (allocator: Allocator)
        requires
            HEADER_SIZE < heap_size <= isize::MAX,
        ensures
            allocator.wf(),
            allocator.capacity() == heap_size,
            allocator.blocks() == Map::<int, Block>::empty().insert(
                0,
                Block { size: (heap_size - HEADER_SIZE) as nat, is_free: true },
            ),
            allocator.free_list() == seq![0int],
            forall|i: int| HEADER_SIZE <= i < heap_size ==> allocator.bytes()[i] == 0u8,
    {
        let mut heap = Heap::new(heap_size);
        let free_list: usize = heap.start_ptr();
        BlockHeader::new(heap_size - HEADER_SIZE).store(&mut heap, free_list);
        let ghost blocks = Map::<int, Block>::empty().insert(
            0,
            Block { size: (heap_size - HEADER_SIZE) as nat, is_free: true },
        );
        let ghost free = seq![0int];
        let allocator = Allocator {
            heap,
            free_list: Some(free_list),
            blocks: Ghost(blocks),
            free: Ghost(free),
        };
        proof {
            reveal(Allocator::inv);
            assert(block_end(blocks, 0) == heap_size);
            assert(allocator.free@[0] == 0);
            assert(link_after(allocator.free@, 0) is None);
        }
        allocator
    }

    /// Rounds `num` up to the next multiple of `align`, a power of two.
    pub fn round_to_aligned(num: usize, align: usize) -> (rounded: usize)
        requires
            is_power_of_two(align),
            num + align <= usize::MAX,
        ensures
            rounded == round_up(num as int, align as int),
            rounded % align == 0,
            num <= rounded < num + align,
    {
        let ghost e = choose|e: nat| e < usize::BITS && align == pow2(e);
        proof {
            lemma_pow2_pos(e);
        }
        let bumped: usize = num + align - 1;
        let mask: usize = align - 1;
        let rounded: usize = bumped & !mask;
        proof {
            lemma_usize_low_bits_mask_is_mod(bumped, e);
            assert(low_bits_mask(e) as usize == mask);
            assert((bumped & mask) + (bumped & !mask) == bumped) by (bit_vector);
            assert(rounded == bumped - bumped % align);
            lemma_multiple_below(bumped as int, align as int);
            lemma_round_up_unique(num as int, align as int, rounded as int);
        }
        rounded
    }

    /// The payload address of the block whose descriptor is at `header`.
    pub(crate) fn header_to_payload(header: usize) -> (payload: usize)
        requires
            header + HEADER_SIZE <= usize::MAX,
        ensures
            payload == header + HEADER_SIZE,
    {
        header + HEADER_SIZE
    }

    /// The descriptor address of the block whose payload is at `payload`.
    pub(crate) fn payload_to_header(payload: usize) -> (header: usize)
        requires
            payload >= HEADER_SIZE,
        ensures
            header == payload - HEADER_SIZE,
    {
        payload - HEADER_SIZE
    }

    /// Allocates `size` bytes and returns the address of the first of them,
    /// or `None` where no free block is large enough.
    ///
    /// The request takes `needed_span(size)` bytes of the arena. They come
    /// from the fitting free block with the lowest address; what is left of
    /// that block stays free where it is worth keeping, and goes to the
    /// caller otherwise. The payloads of all other allocated blocks keep
    /// their contents.
    pub fn allocate(&mut self, size: usize) -> (ptr: Option<usize>)
        requires
            old(self).wf(),
        ensures
            final(self).wf(),
            final(self).capacity() == old(self).capacity(),
            ptr is None <==> no_fit(old(self).blocks(), needed_span(size as int)),
            match ptr {
                Some(p) => {
                    &&& p >= HEADER_SIZE
                    &&& p % ALIGN == 0
                    &&& is_first_fit(
                        old(self).blocks(),
                        p - HEADER_SIZE,
                        needed_span(size as int),
                    )
                    &&& final(self).blocks() == carved(
                        old(self).blocks(),
                        p - HEADER_SIZE,
                        needed_span(size as int),
                    )
                    &&& final(self).blocks()[p - HEADER_SIZE].size >= size
                    &&& forall|q: int| #[trigger]
                        final(self).allocated(q) <==> old(self).allocated(q) || q == p
                },
                None => *final(self) == *old(self),
            },
            forall|q: int|
                old(self).allocated(q) ==> #[trigger] final(self).payload(q) == old(self).payload(
                    q,
                ),
    {
        let ghost needed = needed_span(size as int);
        let ghost blocks = self.blocks@;
        let ghost before = self.heap@;
        proof {
            lemma_needed_span(size as int, size as int);
        }
        if size > usize::MAX - HEADER_SIZE - ALIGN {
            // larger than any arena can be
            proof {
                assert forall|b: int| #[trigger] blocks.dom().contains(b) implies !fits(
                    blocks,
                    b,
                    needed,
                ) by {
                    self.lemma_block(b);
                }
            }
            return None;
        }
        proof {
            lemma2_to64();
            assert(ALIGN == pow2(3));
        }
        // the descriptor's size added, then rounded to whole words
        let span: usize = Self::round_to_aligned(size + HEADER_SIZE, ALIGN);
        assert(span == needed);

        let allocated: usize = match self.find_first_fit(span) {
            None => {
                return None;
            },
            Some(at) => at,
        };
        proof {
            self.lemma_block(allocated as int);
        }
        let header = BlockHeader::load(&self.heap, allocated);
        let payload_size: usize = span - HEADER_SIZE;
        let leftover_size: usize = header.size + HEADER_SIZE - span;

        self.remove_from_free_list(allocated);
        let ghost unlinked = *self;
        if leftover_size > HEADER_SIZE + ALIGN {
            let taken = BlockHeader { size: payload_size, is_free: false, next: None };
            taken.store(&mut self.heap, allocated);
            let ghost taken_bytes = self.heap@;
            let next_block: usize = allocated + span;
            BlockHeader::new(leftover_size - HEADER_SIZE).store(&mut self.heap, next_block);
            self.blocks = Ghost(carved(blocks, allocated as int, needed));
            proof {
                lemma_header_at_agrees(self.heap@, taken_bytes, allocated as int);
                Self::lemma_carved_in_place(unlinked, *self, allocated as int, needed);
                if self.free@.contains(next_block as int) {
                    unlinked.lemma_listed(next_block as int);
                }
            }
            let ghost carved_state = *self;
            self.add_to_free_list(next_block);
            proof {
                assert forall|b: int, i: int|
                    #[trigger] blocks.dom().contains(b) && !blocks[b].is_free && b + HEADER_SIZE
                        <= i < b + HEADER_SIZE + blocks[b].size implies #[trigger] self.heap@[i]
                    == before[i] by {
                    old(self).lemma_block(b);
                    assert(carved_state.blocks@.dom().contains(b));
                    assert(carved_state.heap@[i] == unlinked.heap@[i]);
                    assert(unlinked.heap@[i] == before[i]);
                }
            }
        } else {
            let taken = BlockHeader { size: header.size, is_free: false, next: None };
            taken.store(&mut self.heap, allocated);
            self.blocks = Ghost(carved(blocks, allocated as int, needed));
            proof {
                Self::lemma_carved_in_place(unlinked, *self, allocated as int, needed);
                assert forall|b: int, i: int|
                    #[trigger] blocks.dom().contains(b) && !blocks[b].is_free && b + HEADER_SIZE
                        <= i < b + HEADER_SIZE + blocks[b].size implies #[trigger] self.heap@[i]
                    == before[i] by {
                    old(self).lemma_block(b);
                    assert(unlinked.heap@[i] == before[i]);
                }
            }
        }
        proof {
            let p = allocated + HEADER_SIZE;
            assert forall|q: int| #[trigger] self.allocated(q) <==> old(self).allocated(q) || q
                == p by {
                if blocks.dom().contains(q - HEADER_SIZE) && q != p {
                    assert(self.blocks@.dom().contains(q - HEADER_SIZE));
                }
            }
            assert(live_payloads_kept(blocks, before, self.heap@));
            assert forall|q: int| old(self).allocated(q) implies #[trigger] self.payload(q)
                == old(self).payload(q) by {
                let b = q - HEADER_SIZE;
                assert(blocks.dom().contains(b));
                assert(self.blocks@.dom().contains(b) && self.blocks@[b] == blocks[b]);
                old(self).lemma_block(b);
                assert(self.payload(q) =~= old(self).payload(q));
            }
        }
        Some(Self::header_to_payload(allocated))
    }

    /// Releases the block whose payload starts at `ptr`, which must be the
    /// address of a block that is allocated now: one that `allocate`
    /// returned and that has not been released since. Nothing checks this
    /// at run time; `payload_size` tells whether an address qualifies.
    ///
    /// The block becomes free and is merged at once with the free blocks
    /// directly before and after it. The payloads of all other allocated
    /// blocks keep their contents.
    pub fn free(&mut self, ptr: usize)
        requires
            old(self).wf(),
            old(self).allocated(ptr as int),
        ensures
            final(self).wf(),
            final(self).capacity() == old(self).capacity(),
            final(self).blocks() == released(old(self).blocks(), ptr - HEADER_SIZE),
            forall|q: int| #[trigger] final(self).allocated(q) <==> old(self).allocated(q) && q != ptr,
            forall|q: int|
                old(self).allocated(q) && q != ptr ==> #[trigger] final(self).payload(q) == old(self).payload(q),
    {
        let ghost blocks = self.blocks@;
        let ghost before = self.heap@;
        proof {
            self.lemma_block(ptr - HEADER_SIZE);
            self.lemma_tiles();
        }
        let header: usize = Self::payload_to_header(ptr);
        let mut descriptor = BlockHeader::load(&self.heap, header);
        descriptor.is_free = true;
        descriptor.store(&mut self.heap, header);
        self.blocks = Ghost(marked_free(blocks, header as int));
        proof {
            Self::lemma_marked_in_place(*old(self), *self, header as int);
        }
        let ghost marked = *self;
        self.add_to_free_list(header);
        let ghost listed = *self;
        self.merge_free_list();
        proof {
            let capacity = before.len() as int;
            self.lemma_tiles();
            lemma_released_tiles(blocks, capacity, header as int);
            lemma_allocated_blocks_determine_layout(
                self.blocks@,
                released(blocks, header as int),
                capacity,
            );
            assert forall|q: int| #[trigger] self.allocated(q) <==> old(self).allocated(q) && q
                != ptr by {
                if blocks.dom().contains(q - HEADER_SIZE) {
                    assert(marked.blocks@.dom().contains(q - HEADER_SIZE));
                }
            }
            assert forall|b: int, i: int|
                #[trigger] marked.blocks@.dom().contains(b) && !marked.blocks@[b].is_free && b
                    + HEADER_SIZE <= i < b + HEADER_SIZE + marked.blocks@[b].size
                    implies #[trigger] self.heap@[i] == before[i] by {
                assert(blocks.dom().contains(b));
                old(self).lemma_block(b);
                assert(listed.heap@[i] == marked.heap@[i]);
                assert(marked.heap@[i] == before[i]);
            }
            assert forall|q: int| old(self).allocated(q) && q != ptr implies #[trigger] self.payload(
                q,
            ) == old(self).payload(q) by {
                let b = q - HEADER_SIZE;
                assert(blocks.dom().contains(b));
                assert(marked.blocks@.dom().contains(b) && marked.blocks@[b] == blocks[b]);
                assert(self.blocks@.dom().contains(b) && self.blocks@[b] == blocks[b]);
                old(self).lemma_block(b);
                assert(self.payload(q) =~= old(self).payload(q));
            }
        }
    }

    /// The payload size of the allocated block whose payload starts at
    /// `ptr`, or `None` where `ptr` is not the payload address of a block
    /// that is allocated now.
    pub fn payload_size(&self, ptr: usize) -> (size: Option<usize>)
        requires
            self.wf(),
        ensures
            match size {
                Some(n) => self.allocated(ptr as int) && n == self.blocks()[ptr
                    - HEADER_SIZE].size,
                None => !self.allocated(ptr as int),
            },
    {
        proof {
            self.lemma_tiles();
        }
        if ptr < HEADER_SIZE {
            proof {
                if self.blocks@.dom().contains(ptr - HEADER_SIZE) {
                    self.lemma_block(ptr - HEADER_SIZE);
                }
            }
            return None;
        }
        let target: usize = Self::payload_to_header(ptr);
        let n: usize = self.heap.len();
        let mut at: usize = 0;
        loop
            invariant
                self.wf(),
                n == self.heap@.len(),
                target == ptr - HEADER_SIZE,
                self.blocks@.dom().contains(at as int),
                forall|b: int| #[trigger] self.blocks@.dom().contains(b) && b < at ==> b != target,
            decreases n - at,
        {
            proof {
                self.lemma_tiles();
                self.lemma_block(at as int);
            }
            let header = BlockHeader::load(&self.heap, at);
            if at == target {
                return if header.is_free {
                    None
                } else {
                    Some(header.size)
                };
            }
            let end: usize = at + HEADER_SIZE + header.size;
            if end > target || end >= n {
                proof {
                    if self.blocks@.dom().contains(target as int) {
                        self.lemma_block(target as int);
                    }
                }
                return None;
            }
            proof {
                assert(block_end(self.blocks@, at as int) == end);
            }
            at = end;
        }
    }

    /// The payload byte at `offset` of the allocated block whose payload
    /// starts at `ptr`.
    pub fn read(&self, ptr: usize, offset: usize) -> (value: u8)
        requires
            self.wf(),
            self.allocated(ptr as int),
            offset < self.blocks()[ptr - HEADER_SIZE].size,
        ensures
            value == self.payload(ptr as int)[offset as int],
    {
        proof {
            self.lemma_block(ptr - HEADER_SIZE);
        }
        self.heap.read(ptr + offset)
    }

    /// Overwrites the payload byte at `offset` of the allocated block whose
    /// payload starts at `ptr`. Nothing else changes.
    pub fn write(&mut self, ptr: usize, offset: usize, value: u8)
        requires
            old(self).wf(),
            old(self).allocated(ptr as int),
            offset < old(self).blocks()[ptr - HEADER_SIZE].size,
        ensures
            final(self).wf(),
            final(self).capacity() == old(self).capacity(),
            final(self).blocks() == old(self).blocks(),
            final(self).free_list() == old(self).free_list(),
            final(self).payload(ptr as int) == old(self).payload(ptr as int).update(
                offset as int,
                value,
            ),
            forall|q: int|
                old(self).allocated(q) && q != ptr ==> #[trigger] final(self).payload(q) == old(self).payload(q),
    {
        proof {
            self.lemma_block(ptr - HEADER_SIZE);
        }
        self.heap.write(ptr + offset, value);
        proof {
            Self::lemma_written_in_place(*old(self), *self, ptr - HEADER_SIZE, ptr + offset);
            assert(self.payload(ptr as int) =~= old(self).payload(ptr as int).update(
                offset as int,
                value,
            ));
            assert forall|q: int| old(self).allocated(q) && q != ptr implies #[trigger] self.payload(
                q,
            ) == old(self).payload(q) by {
                old(self).lemma_payloads_disjoint(ptr as int, q);
                old(self).lemma_block(q - HEADER_SIZE);
                assert(self.payload(q) =~= old(self).payload(q));
            }
        }
    }

    /// The free list as it is chained through the arena: for each entry in
    /// list order, the address of its descriptor and its payload size.
    pub fn free_blocks(&self) -> (list: Vec<(usize, usize)>)
        requires
            self.wf(),
        ensures
            list@.len() == self.free_list().len(),
            forall|k: int|
                0 <= k < list@.len() ==> (#[trigger] list@[k]).0 == self.free_list()[k]
                    && list@[k].1 == self.blocks()[self.free_list()[k]].size,
    {
        let mut list: Vec<(usize, usize)> = Vec::new();
        let mut entry: Option<usize> = self.free_list;
        proof {
            reveal(Allocator::inv);
        }
        loop
            invariant
                self.wf(),
                list@.len() <= self.free@.len(),
                entry == if list@.len() < self.free@.len() {
                    Some(self.free@[list@.len() as int] as usize)
                } else {
                    None
                },
                forall|k: int|
                    0 <= k < list@.len() ==> (#[trigger] list@[k]).0 == self.free@[k] && list@[k].1
                        == self.blocks@[self.free@[k]].size,
            decreases self.free@.len() - list@.len(),
        {
            let at: usize = match entry {
                None => {
                    return list;
                },
                Some(at) => at,
            };
            proof {
                self.lemma_entry(list@.len() as int);
                self.lemma_block(self.free@[list@.len() as int]);
            }
            let header = BlockHeader::load(&self.heap, at);
            list.push((at, header.size));
            entry = header.next;
        }
    }
}

// What holds of every well-formed allocator.
impl Allocator {
    /// The blocks divide the arena without gap or overlap, no two free
    /// blocks are adjacent, and the descriptor stored in front of each block
    /// holds that block's size and free flag.
    pub proof fn lemma_blocks_tile(&self)
        requires
            self.wf(),
        ensures
            tiles(self.blocks(), self.capacity() as int),
            coalesced(self.blocks()),
            self.capacity() <= isize::MAX,
            forall|a: int| #[trigger]
                self.blocks().dom().contains(a) ==> self.header(a).size == self.blocks()[a].size
                    && self.header(a).is_free == self.blocks()[a].is_free,
    {
        reveal(Allocator::inv);
    }

    /// The free list is strictly ascending by address and holds exactly the
    /// free blocks; it starts at the head, and the descriptor of each entry
    /// links to the next entry.
    pub proof fn lemma_free_list_ordered(&self)
        requires
            self.wf(),
        ensures
            ascending(self.free_list()),
            forall|a: int| #[trigger]
                self.free_list().contains(a) <==> self.blocks().dom().contains(a)
                    && self.blocks()[a].is_free,
            self.head() == if self.free_list().len() > 0 {
                Some(self.free_list()[0] as usize)
            } else {
                None
            },
            chained(self.bytes(), self.free_list()),
    {
        reveal(Allocator::inv);
        assert forall|a: int| #[trigger] self.free@.contains(a) implies self.blocks@.dom().contains(
            a,
        ) && self.blocks@[a].is_free by {
            self.lemma_listed(a);
        }
    }

    /// The blocks determine the free list: two well-formed allocators that
    /// are divided into the same blocks have the same free list.
    pub proof fn lemma_free_list_determined(&self, other: Allocator)
        requires
            self.wf(),
            other.wf(),
            self.blocks() == other.blocks(),
        ensures
            self.free_list() == other.free_list(),
    {
        self.lemma_free_list_ordered();
        other.lemma_free_list_ordered();
        lemma_ascending_determined(self.free@, other.free@);
    }

    /// The payloads of two different allocated blocks lie inside the arena
    /// and share no byte: each ends before the descriptor of the other begins.
    pub proof fn lemma_payloads_disjoint(&self, p: int, q: int)
        requires
            self.wf(),
            self.allocated(p),
            self.allocated(q),
            p != q,
        ensures
            HEADER_SIZE <= p,
            p + self.blocks()[p - HEADER_SIZE].size <= self.capacity(),
            p + self.blocks()[p - HEADER_SIZE].size <= q - HEADER_SIZE || q + self.blocks()[q
                - HEADER_SIZE].size <= p - HEADER_SIZE,
    {
        reveal(Allocator::inv);
    }

    /// Once no block is allocated, the arena is one free block again, as it
    /// was when the allocator was made.
    pub proof fn lemma_all_released(&self)
        requires
            self.wf(),
            forall|q: int| !#[trigger] self.allocated(q),
        ensures
            self.blocks() == Map::<int, Block>::empty().insert(
                0,
                Block { size: (self.capacity() - HEADER_SIZE) as nat, is_free: true },
            ),
            self.free_list() == seq![0int],
    {
        reveal(Allocator::inv);
        let blocks = self.blocks@;
        let free = self.free@;
        assert forall|a: int| #[trigger] blocks.dom().contains(a) implies blocks[a].is_free by {
            assert(!self.allocated(a + HEADER_SIZE));
        }
        lemma_all_free_is_one_block(blocks, self.heap@.len() as int);
        assert(free.contains(0));
        assert forall|k: int| 0 <= k < free.len() implies #[trigger] free[k] == 0 by {
            assert(blocks.dom().contains(free[k]));
        }
        if free.len() > 1 {
            assert(free[0] < free[1]);
        }
        assert(free =~= seq![0int]);
    }
}

// What the invariant gives to the proofs of the operations.
impl Allocator {
    /// What the invariant says of one block: where it lies and what its
    /// stored descriptor holds.
    pub(crate) proof fn lemma_block(&self, at: int)
        requires
            self.inv(),
            self.blocks@.dom().contains(at),
        ensures
            0 <= at,
            at % (ALIGN as int) == 0,
            at + HEADER_SIZE + self.blocks@[at].size <= self.heap@.len() <= isize::MAX,
            header_at(self.heap@, at).size == self.blocks@[at].size,
            header_at(self.heap@, at).is_free == self.blocks@[at].is_free,
    {
        reveal(Allocator::inv);
    }

    /// The blocks divide the arena.
    pub(crate) proof fn lemma_tiles(&self)
        requires
            self.inv(),
        ensures
            tiles(self.blocks@, self.heap@.len() as int),
    {
        reveal(Allocator::inv);
    }

    /// What the invariant says of the free-list entry at position `k`.
    pub(crate) proof fn lemma_entry(&self, k: int)
        requires
            self.inv(),
            0 <= k < self.free@.len(),
        ensures
            self.blocks@.dom().contains(self.free@[k]),
            self.blocks@[self.free@[k]].is_free,
            header_at(self.heap@, self.free@[k]).next == link_after(self.free@, k),
            ascending(self.free@),
            self.free_list == Some(self.free@[0] as usize),
            0 <= self.free@[k],
            self.free@[k] + HEADER_SIZE <= self.heap@.len() <= isize::MAX,
    {
        reveal(Allocator::inv);
        assert(header_at(self.heap@, self.free@[k]).next == link_after(self.free@, k));
    }

    /// Every entry of the free list is a free block.
    pub(crate) proof fn lemma_listed(&self, at: int)
        requires
            self.inv(),
            self.free@.contains(at),
        ensures
            self.blocks@.dom().contains(at),
            self.blocks@[at].is_free,
    {
        reveal(Allocator::inv);
        let k = self.free@.index_of(at);
        assert(self.blocks@.dom().contains(self.free@[k]));
    }

    /// Rewriting the descriptor of an unlisted free block as allocated, and
    /// writing the descriptor of its remainder where one is kept, turns the
    /// division into the carved one and disturbs nothing else.
    proof fn lemma_carved_in_place(pre: Allocator, post: Allocator, at: int, needed: int)
        requires
            pre.inv(),
            coalesced(pre.blocks@),
            fits(pre.blocks@, at, needed),
            !pre.free@.contains(at),
            needed >= HEADER_SIZE,
            needed % (ALIGN as int) == 0,
            post.free@ == pre.free@,
            post.free_list == pre.free_list,
            post.blocks@ == carved(pre.blocks@, at, needed),
            post.heap@.len() == pre.heap@.len(),
            forall|i: int|
                0 <= i < pre.heap@.len() && !(at <= i < at + HEADER_SIZE) && !(leaves_remainder(
                    pre.blocks@,
                    at,
                    needed,
                ) && at + needed <= i < at + needed + HEADER_SIZE) ==> post.heap@[i]
                    == pre.heap@[i],
            header_at(post.heap@, at).size == post.blocks@[at].size,
            !header_at(post.heap@, at).is_free,
            leaves_remainder(pre.blocks@, at, needed) ==> header_at(post.heap@, at + needed).size
                == post.blocks@[at + needed].size && header_at(post.heap@, at + needed).is_free,
        ensures
            post.inv(),
            coalesced(post.blocks@),
            live_payloads_kept(pre.blocks@, pre.heap@, post.heap@),
            leaves_remainder(pre.blocks@, at, needed) ==> !pre.blocks@.dom().contains(at + needed),
            forall|b: int| #[trigger]
                pre.blocks@.dom().contains(b) && b != at ==> post.blocks@.dom().contains(b)
                    && post.blocks@[b] == pre.blocks@[b],
    {
        reveal(Allocator::inv);
        let blocks = pre.blocks@;
        let capacity = pre.heap@.len() as int;
        lemma_carved_tiles(blocks, capacity, at, needed);
        assert forall|b: int| #[trigger] blocks.dom().contains(b) && b != at implies header_at(
            post.heap@,
            b,
        ) == header_at(pre.heap@, b) by {
            lemma_header_at_agrees(post.heap@, pre.heap@, b);
        }
        assert forall|k: int| 0 <= k < post.free@.len() implies post.blocks@.dom().contains(
            #[trigger] post.free@[k],
        ) && post.blocks@[post.free@[k]].is_free by {
            assert(blocks.dom().contains(pre.free@[k]));
        }
        assert forall|k: int| 0 <= k < post.free@.len() implies header_at(
            post.heap@,
            post.free@[k],
        ).next == #[trigger] link_after(post.free@, k) by {
            assert(header_at(pre.heap@, pre.free@[k]).next == link_after(pre.free@, k));
            assert(blocks.dom().contains(pre.free@[k]));
        }
    }

    /// Setting the free flag in the descriptor of an allocated block marks
    /// the block free and disturbs nothing else.
    proof fn lemma_marked_in_place(pre: Allocator, post: Allocator, at: int)
        requires
            pre.inv(),
            pre.blocks@.dom().contains(at),
            !pre.blocks@[at].is_free,
            post.blocks@ == marked_free(pre.blocks@, at),
            post.free@ == pre.free@,
            post.free_list == pre.free_list,
            post.heap@.len() == pre.heap@.len(),
            forall|i: int|
                0 <= i < pre.heap@.len() && !(at <= i < at + HEADER_SIZE) ==> post.heap@[i]
                    == pre.heap@[i],
            header_at(post.heap@, at).size == pre.blocks@[at].size,
            header_at(post.heap@, at).is_free,
        ensures
            post.inv(),
            payloads_kept(pre.blocks@, pre.heap@, post.heap@),
            !post.free@.contains(at),
    {
        reveal(Allocator::inv);
        let blocks = pre.blocks@;
        lemma_store_frame(blocks, pre.heap@, post.heap@, at);
        assert forall|a: int| post.blocks@.dom().contains(a) implies #[trigger] block_end(
            post.blocks@,
            a,
        ) == post.heap@.len() || post.blocks@.dom().contains(block_end(post.blocks@, a)) by {
            assert(block_end(blocks, a) == pre.heap@.len() || blocks.dom().contains(
                block_end(blocks, a),
            ));
        }
        assert forall|k: int| 0 <= k < post.free@.len() implies post.blocks@.dom().contains(
            #[trigger] post.free@[k],
        ) && post.blocks@[post.free@[k]].is_free && post.free@[k] != at by {
            assert(blocks.dom().contains(pre.free@[k]));
        }
        assert forall|k: int| 0 <= k < post.free@.len() implies header_at(
            post.heap@,
            post.free@[k],
        ).next == #[trigger] link_after(post.free@, k) by {
            assert(header_at(pre.heap@, pre.free@[k]).next == link_after(pre.free@, k));
            assert(blocks.dom().contains(pre.free@[k]));
        }
        if post.free@.contains(at) {
            let k = post.free@.index_of(at);
            assert(post.free@[k] != at);
        }
    }

    /// Overwriting one payload byte of an allocated block disturbs no
    /// descriptor and no other payload byte.
    proof fn lemma_written_in_place(pre: Allocator, post: Allocator, at: int, i: int)
        requires
            pre.inv(),
            pre.blocks@.dom().contains(at),
            at + HEADER_SIZE <= i < block_end(pre.blocks@, at),
            post.blocks@ == pre.blocks@,
            post.free@ == pre.free@,
            post.free_list == pre.free_list,
            post.heap@.len() == pre.heap@.len(),
            forall|j: int| 0 <= j < pre.heap@.len() && j != i ==> post.heap@[j] == pre.heap@[j],
        ensures
            post.inv(),
    {
        reveal(Allocator::inv);
        let blocks = pre.blocks@;
        assert forall|b: int| #[trigger] blocks.dom().contains(b) implies header_at(
            post.heap@,
            b,
        ) == header_at(pre.heap@, b) by {
            lemma_header_at_agrees(post.heap@, pre.heap@, b);
        }
        assert forall|k: int| 0 <= k < post.free@.len() implies header_at(
            post.heap@,
            post.free@[k],
        ).next == #[trigger] link_after(post.free@, k) by {
            assert(header_at(pre.heap@, pre.free@[k]).next == link_after(pre.free@, k));
            assert(blocks.dom().contains(pre.free@[k]));
        }
    }
}

/// Taking the remainder of `x` by `m` away from `x` leaves a multiple of `m`.
pub proof fn lemma_multiple_below(x: int, m: int)
    requires
        0 <= x,
        0 < m,
    ensures
        (x - x % m) % m == 0,
        0 <= x % m < m,
{
    assert(x - x % m == (x / m) * m && 0 <= x % m < m) by (nonlinear_arith)
        requires
            0 <= x,
            0 < m,
    ;
    assert(((x / m) * m) % m == 0) by (nonlinear_arith)
        requires
            0 < m,
    ;
}

/// `round_up(num, align)` is the only multiple of `align` in `[num, num + align)`.
pub proof fn lemma_round_up_unique(num: int, align: int, r: int)
    requires
        align > 0,
        r % align == 0,
        num <= r < num + align,
    ensures
        r == round_up(num, align),
{
    let q = r / align;
    assert(r == q * align) by (nonlinear_arith)
        requires
            q == r / align,
            r % align == 0,
            align > 0,
    ;
    assert((num + align - 1) / align == q) by (nonlinear_arith)
        requires
            r == q * align,
            num <= r < num + align,
            align > 0,
    ;
}

} // verus!
