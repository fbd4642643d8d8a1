//! The mathematical model of an arena: which blocks it is cut into.
//!
//! An arena is described by a map from the address of each block's descriptor
//! to that block's payload size and free flag. The predicates of this module
//! say when such a map is a gapless, non-overlapping division of the arena,
//! and the functions say what allocating and releasing do to it.

use crate::allocator::{round_up, ALIGN};
use crate::block::HEADER_SIZE;
use vstd::prelude::*;

verus! {

/// One block of the arena, as the contracts see it.
pub struct Block {
    /// Bytes of payload that follow the descriptor.
    pub size: nat,
    /// Whether the block is free.
    pub is_free: bool,
}

/// The address one past the last payload byte of the block at `at`.
pub open spec fn block_end(blocks: Map<int, Block>, at: int) -> int {
    at + HEADER_SIZE + blocks[at].size
}

/// The blocks divide an arena of `capacity` bytes: the first block starts at
/// address zero, every block starts on a word boundary, each block is
/// followed directly by another block or by the end of the arena, and no two
/// blocks overlap.
pub open spec fn tiles(blocks: Map<int, Block>, capacity: int) -> bool {
    &&& blocks.dom().contains(0)
    &&& forall|a: int| #[trigger]
        blocks.dom().contains(a) ==> 0 <= a && a % (ALIGN as int) == 0 && a + HEADER_SIZE
            + blocks[a].size <= capacity
    &&& forall|a: int|
        blocks.dom().contains(a) ==> #[trigger] block_end(blocks, a) == capacity
            || blocks.dom().contains(block_end(blocks, a))
    &&& forall|a: int, b: int|
        #[trigger] blocks.dom().contains(a) && #[trigger] blocks.dom().contains(b) && a < b
            ==> a + HEADER_SIZE + blocks[a].size <= b
}

/// No free block is directly followed by another free block.
pub open spec fn coalesced(blocks: Map<int, Block>) -> bool {
    forall|a: int, b: int|
        #[trigger] blocks.dom().contains(a) && #[trigger] blocks.dom().contains(b)
            && blocks[a].is_free && a + HEADER_SIZE + blocks[a].size == b ==> !blocks[b].is_free
}

/// Every allocated block of `inner` is a block of `outer`, with the same size
/// and also allocated there.
pub open spec fn allocated_within(inner: Map<int, Block>, outer: Map<int, Block>) -> bool {
    forall|a: int|
        #[trigger] inner.dom().contains(a) && !inner[a].is_free ==> outer.dom().contains(a)
            && outer[a] == inner[a]
}

/// The span that a request for `size` payload bytes takes from the arena:
/// the payload and its descriptor, rounded up to whole words.
pub open spec fn needed_span(size: int) -> int {
    round_up(size + HEADER_SIZE, ALIGN as int)
}

/// Whether the block at `at` is free and spans at least `needed` bytes,
/// descriptor included.
pub open spec fn fits(blocks: Map<int, Block>, at: int, needed: int) -> bool {
    blocks.dom().contains(at) && blocks[at].is_free && blocks[at].size + HEADER_SIZE >= needed
}

/// Whether the block at `at` is the fitting block with the lowest address.
pub open spec fn is_first_fit(blocks: Map<int, Block>, at: int, needed: int) -> bool {
    &&& fits(blocks, at, needed)
    &&& forall|b: int| #[trigger] blocks.dom().contains(b) && b < at ==> !fits(blocks, b, needed)
}

/// Whether no block fits.
pub open spec fn no_fit(blocks: Map<int, Block>, needed: int) -> bool {
    forall|b: int| #[trigger] blocks.dom().contains(b) ==> !fits(blocks, b, needed)
}

/// Whether taking `needed` bytes from the block at `at` leaves a remainder
/// worth keeping as a free block of its own: more than a descriptor and one word.
pub open spec fn leaves_remainder(blocks: Map<int, Block>, at: int, needed: int) -> bool {
    blocks[at].size + HEADER_SIZE - needed > HEADER_SIZE + ALIGN
}

/// The division after `needed` bytes are allocated from the free block at
/// `at`: the block is cut in two where a remainder is worth keeping, and is
/// taken whole otherwise.
pub open spec fn carved(blocks: Map<int, Block>, at: int, needed: int) -> Map<int, Block> {
    if leaves_remainder(blocks, at, needed) {
        blocks.insert(at, Block { size: (needed - HEADER_SIZE) as nat, is_free: false }).insert(
            at + needed,
            Block { size: (blocks[at].size - needed) as nat, is_free: true },
        )
    } else {
        blocks.insert(at, Block { size: blocks[at].size, is_free: false })
    }
}

/// Carving a fitting block keeps the arena divided and coalesced.
pub proof fn lemma_carved_tiles(blocks: Map<int, Block>, capacity: int, at: int, needed: int)
    requires
        tiles(blocks, capacity),
        coalesced(blocks),
        fits(blocks, at, needed),
        needed >= HEADER_SIZE,
        needed % (ALIGN as int) == 0,
    ensures
        tiles(carved(blocks, at, needed), capacity),
        coalesced(carved(blocks, at, needed)),
        !blocks.dom().contains(at + needed) || !leaves_remainder(blocks, at, needed),
{
    let after = carved(blocks, at, needed);
    assert forall|a: int| after.dom().contains(a) implies #[trigger] block_end(after, a)
        == capacity || after.dom().contains(block_end(after, a)) by {
        if blocks.dom().contains(a) {
            assert(block_end(blocks, a) == capacity || blocks.dom().contains(
                block_end(blocks, a),
            ));
        } else {
            assert(block_end(blocks, at) == capacity || blocks.dom().contains(
                block_end(blocks, at),
            ));
        }
    }
    assert(blocks.dom().contains(at));
    if leaves_remainder(blocks, at, needed) {
        if blocks.dom().contains(at + needed) {
            assert(false);
        }
        assert(after.dom().contains(at + needed));
        assert((at + needed) % (ALIGN as int) == 0);
    }
}

/// The division after the block at `at` has taken in the block that
/// directly follows it, descriptor and payload.
pub open spec fn absorbed(blocks: Map<int, Block>, at: int) -> Map<int, Block> {
    let next = block_end(blocks, at);
    blocks.remove(next).insert(
        at,
        Block {
            size: (blocks[at].size + HEADER_SIZE + blocks[next].size) as nat,
            is_free: blocks[at].is_free,
        },
    )
}

/// The free block that ends where the block at `at` begins, if there is one.
pub open spec fn free_predecessor(blocks: Map<int, Block>, at: int) -> Option<int> {
    if exists|p: int| #[trigger]
        blocks.dom().contains(p) && blocks[p].is_free && p + HEADER_SIZE + blocks[p].size == at {
        Some(
            choose|p: int| #[trigger]
                blocks.dom().contains(p) && blocks[p].is_free && p + HEADER_SIZE + blocks[p].size
                    == at,
        )
    } else {
        None
    }
}

/// The division with the block at `at` marked free and nothing merged yet.
pub open spec fn marked_free(blocks: Map<int, Block>, at: int) -> Map<int, Block> {
    blocks.insert(at, Block { size: blocks[at].size, is_free: true })
}

/// The division after the allocated block at `at` is released: the block
/// becomes free and is merged with the block after it and with the block
/// before it, where those are free.
pub open spec fn released(blocks: Map<int, Block>, at: int) -> Map<int, Block> {
    let next = block_end(blocks, at);
    let forward = if blocks.dom().contains(next) && blocks[next].is_free {
        absorbed(marked_free(blocks, at), at)
    } else {
        marked_free(blocks, at)
    };
    match free_predecessor(blocks, at) {
        Some(before) => absorbed(forward, before),
        None => forward,
    }
}

/// Merging two adjacent free blocks keeps the arena divided and leaves
/// every allocated block as it was.
pub proof fn lemma_absorbed_tiles(blocks: Map<int, Block>, capacity: int, at: int)
    requires
        tiles(blocks, capacity),
        blocks.dom().contains(at),
        blocks.dom().contains(block_end(blocks, at)),
        blocks[at].is_free,
        blocks[block_end(blocks, at)].is_free,
    ensures
        tiles(absorbed(blocks, at), capacity),
        allocated_within(blocks, absorbed(blocks, at)),
        allocated_within(absorbed(blocks, at), blocks),
        block_end(absorbed(blocks, at), at) == block_end(blocks, block_end(blocks, at)),
{
    let next = block_end(blocks, at);
    let after = absorbed(blocks, at);
    assert forall|a: int| after.dom().contains(a) implies #[trigger] block_end(after, a)
        == capacity || after.dom().contains(block_end(after, a)) by {
        if a == at {
            assert(block_end(blocks, next) == capacity || blocks.dom().contains(
                block_end(blocks, next),
            ));
        } else {
            assert(block_end(blocks, a) == capacity || blocks.dom().contains(
                block_end(blocks, a),
            ));
        }
    }
}

/// Releasing an allocated block of a coalesced division gives a coalesced
/// division again, with the same allocated blocks but for the released one.
pub proof fn lemma_released_tiles(blocks: Map<int, Block>, capacity: int, at: int)
    requires
        tiles(blocks, capacity),
        coalesced(blocks),
        blocks.dom().contains(at),
        !blocks[at].is_free,
    ensures
        tiles(released(blocks, at), capacity),
        coalesced(released(blocks, at)),
        allocated_within(marked_free(blocks, at), released(blocks, at)),
        allocated_within(released(blocks, at), marked_free(blocks, at)),
{
    let next = block_end(blocks, at);
    let marked = marked_free(blocks, at);
    assert(tiles(marked, capacity)) by {
        assert forall|a: int| marked.dom().contains(a) implies #[trigger] block_end(marked, a)
            == capacity || marked.dom().contains(block_end(marked, a)) by {
            assert(block_end(blocks, a) == capacity || blocks.dom().contains(
                block_end(blocks, a),
            ));
        }
    }
    assert(block_end(blocks, at) == capacity || blocks.dom().contains(block_end(blocks, at)));
    let merges_forward = blocks.dom().contains(next) && blocks[next].is_free;
    let forward = if merges_forward {
        absorbed(marked, at)
    } else {
        marked
    };
    if merges_forward {
        assert(block_end(marked, at) == next);
        lemma_absorbed_tiles(marked, capacity, at);
        assert(block_end(blocks, next) == capacity || blocks.dom().contains(
            block_end(blocks, next),
        ));
    }
    match free_predecessor(blocks, at) {
        Some(before) => {
            assert(blocks.dom().contains(before));
            assert(block_end(forward, before) == at);
            lemma_absorbed_tiles(forward, capacity, before);
        },
        None => {},
    }
}

/// No free block that starts below `bound` is directly followed by another free block.
pub(crate) open spec fn coalesced_before(blocks: Map<int, Block>, bound: int) -> bool {
    forall|a: int, b: int|
        #[trigger] blocks.dom().contains(a) && #[trigger] blocks.dom().contains(b)
            && blocks[a].is_free && a < bound && a + HEADER_SIZE + blocks[a].size == b
            ==> !blocks[b].is_free
}

/// Every payload byte of every block is the same in `after` as in `before`.
pub(crate) open spec fn payloads_kept(blocks: Map<int, Block>, before: Seq<u8>, after: Seq<u8>) -> bool {
    forall|b: int, i: int|
        #[trigger] blocks.dom().contains(b) && b + HEADER_SIZE <= i < b + HEADER_SIZE
            + blocks[b].size ==> #[trigger] after[i] == before[i]
}

/// Every payload byte of every allocated block is the same in `after` as in `before`.
pub(crate) open spec fn live_payloads_kept(blocks: Map<int, Block>, before: Seq<u8>, after: Seq<u8>) -> bool {
    forall|b: int, i: int|
        #[trigger] blocks.dom().contains(b) && !blocks[b].is_free && b + HEADER_SIZE <= i < b
            + HEADER_SIZE + blocks[b].size ==> #[trigger] after[i] == before[i]
}

/// Allocated payloads that were kept so far stay kept over a step that
/// keeps the payloads of a division with the same allocated blocks.
pub(crate) proof fn lemma_live_kept_step(
    first: Map<int, Block>,
    current: Map<int, Block>,
    start: Seq<u8>,
    before: Seq<u8>,
    after: Seq<u8>,
)
    requires
        live_payloads_kept(first, start, before),
        allocated_within(first, current),
        payloads_kept(current, before, after),
    ensures
        live_payloads_kept(first, start, after),
{
    assert forall|b: int, i: int|
        #[trigger] first.dom().contains(b) && !first[b].is_free && b + HEADER_SIZE <= i < b
            + HEADER_SIZE + first[b].size implies #[trigger] after[i] == start[i] by {
        assert(current.dom().contains(b));
        assert(after[i] == before[i]);
    }
}

/// Merging the free block at `at` with its free successor leaves the
/// division coalesced below `at`.
pub(crate) proof fn lemma_absorbed_coalesced_before(blocks: Map<int, Block>, capacity: int, at: int)
    requires
        tiles(blocks, capacity),
        coalesced_before(blocks, at),
        blocks.dom().contains(at),
        blocks.dom().contains(block_end(blocks, at)),
        blocks[at].is_free,
    ensures
        coalesced_before(absorbed(blocks, at), at),
{
}

proof fn lemma_covered_from(blocks: Map<int, Block>, capacity: int, from: int, x: int) -> (at:
    int)
    requires
        tiles(blocks, capacity),
        blocks.dom().contains(from),
        from <= x < capacity,
    ensures
        blocks.dom().contains(at),
        at <= x < block_end(blocks, at),
    decreases capacity - from,
{
    if x < block_end(blocks, from) {
        from
    } else {
        lemma_covered_from(blocks, capacity, block_end(blocks, from), x)
    }
}

/// Every byte of a divided arena lies in exactly one block; this gives the
/// address of the block that holds byte `x`.
pub proof fn lemma_covered(blocks: Map<int, Block>, capacity: int, x: int) -> (at: int)
    requires
        tiles(blocks, capacity),
        0 <= x < capacity,
    ensures
        blocks.dom().contains(at),
        at <= x < block_end(blocks, at),
{
    lemma_covered_from(blocks, capacity, 0, x)
}

proof fn lemma_determined_at(
    first: Map<int, Block>,
    second: Map<int, Block>,
    capacity: int,
    a: int,
)
    requires
        tiles(first, capacity),
        tiles(second, capacity),
        coalesced(first),
        coalesced(second),
        allocated_within(first, second),
        allocated_within(second, first),
        first.dom().contains(a),
    ensures
        second.dom().contains(a),
        second[a] == first[a],
{
    if first[a].is_free {
        let b = lemma_covered(second, capacity, a);
        if !second[b].is_free {
            assert(first.dom().contains(b));
        }
        if b < a {
            let p = lemma_covered(first, capacity, a - 1);
            assert(block_end(first, p) == a);
            assert(!first[p].is_free);
            assert(second.dom().contains(p));
            assert(false);
        }
        let first_end = block_end(first, a);
        let second_end = block_end(second, a);
        if first_end < second_end {
            assert(first.dom().contains(first_end));
            assert(!first[first_end].is_free);
            assert(second.dom().contains(first_end));
            assert(false);
        }
        if second_end < first_end {
            assert(second.dom().contains(second_end));
            assert(!second[second_end].is_free);
            assert(first.dom().contains(second_end));
            assert(false);
        }
    }
}

/// The allocated blocks determine the whole division: two coalesced
/// divisions of one arena that agree on their allocated blocks are equal.
pub proof fn lemma_allocated_blocks_determine_layout(
    first: Map<int, Block>,
    second: Map<int, Block>,
    capacity: int,
)
    requires
        tiles(first, capacity),
        tiles(second, capacity),
        coalesced(first),
        coalesced(second),
        allocated_within(first, second),
        allocated_within(second, first),
    ensures
        first == second,
{
    assert forall|a: int| first.dom().contains(a) implies second.dom().contains(a) && second[a]
        == first[a] by {
        lemma_determined_at(first, second, capacity, a);
    }
    assert forall|a: int| second.dom().contains(a) implies first.dom().contains(a) by {
        lemma_determined_at(second, first, capacity, a);
    }
    assert(first =~= second);
}

/// A division in which every block is free and none is followed by a free
/// block consists of one block that spans the whole arena.
pub proof fn lemma_all_free_is_one_block(blocks: Map<int, Block>, capacity: int)
    requires
        tiles(blocks, capacity),
        coalesced(blocks),
        forall|a: int| #[trigger] blocks.dom().contains(a) ==> blocks[a].is_free,
    ensures
        blocks == Map::<int, Block>::empty().insert(
            0,
            Block { size: (capacity - HEADER_SIZE) as nat, is_free: true },
        ),
{
    let whole = Map::<int, Block>::empty().insert(
        0,
        Block { size: (capacity - HEADER_SIZE) as nat, is_free: true },
    );
    assert(block_end(blocks, 0) == capacity || blocks.dom().contains(block_end(blocks, 0)));
    assert forall|a: int| blocks.dom().contains(a) implies a == 0 by {
        if a != 0 {
            assert(block_end(blocks, 0) <= a);
        }
    }
    assert(blocks =~= whole);
}

/// The division after the blocks at the addresses in `order` are released
/// one after the other.
pub open spec fn released_all(blocks: Map<int, Block>, order: Seq<int>) -> Map<int, Block>
    decreases order.len(),
{
    if order.len() == 0 {
        blocks
    } else {
        released_all(released(blocks, order[0]), order.drop_first())
    }
}

/// Releasing every allocated block, in any order, leaves the arena as one
/// free block that spans it whole.
pub proof fn lemma_released_all_is_one_block(
    blocks: Map<int, Block>,
    capacity: int,
    order: Seq<int>,
)
    requires
        tiles(blocks, capacity),
        coalesced(blocks),
        order.no_duplicates(),
        forall|a: int| order.contains(a) <==> blocks.dom().contains(a) && !blocks[a].is_free,
    ensures
        released_all(blocks, order) == Map::<int, Block>::empty().insert(
            0,
            Block { size: (capacity - HEADER_SIZE) as nat, is_free: true },
        ),
    decreases order.len(),
{
    if order.len() == 0 {
        assert forall|a: int| #[trigger] blocks.dom().contains(a) implies blocks[a].is_free by {
            if !blocks[a].is_free {
                assert(order.contains(a));
            }
        }
        lemma_all_free_is_one_block(blocks, capacity);
    } else {
        let first = order[0];
        let rest = order.drop_first();
        let after = released(blocks, first);
        assert(order.contains(first));
        lemma_released_tiles(blocks, capacity, first);
        let marked = marked_free(blocks, first);
        assert forall|a: int| rest.contains(a) <==> after.dom().contains(a)
            && !after[a].is_free by {
            if rest.contains(a) {
                let k = rest.index_of(a);
                assert(order[k + 1] == a);
                assert(order.contains(a));
                assert(a != first);
                assert(marked.dom().contains(a));
            }
            if after.dom().contains(a) && !after[a].is_free {
                assert(marked.dom().contains(a));
                assert(order.contains(a));
                let k = order.index_of(a);
                assert(rest[k - 1] == a);
            }
        }
        lemma_released_all_is_one_block(after, capacity, rest);
    }
}

/// At most one block is the first fit for a request.
pub proof fn lemma_first_fit_unique(blocks: Map<int, Block>, first: int, second: int, needed: int)
    requires
        is_first_fit(blocks, first, needed),
        is_first_fit(blocks, second, needed),
    ensures
        first == second,
{
}

/// A request needs at least its own size and a descriptor, at most a word
/// more than that, and a whole number of words; a smaller request never
/// needs more than a larger one.
pub proof fn lemma_needed_span(smaller: int, larger: int)
    requires
        0 <= smaller <= larger,
    ensures
        needed_span(smaller) <= needed_span(larger),
        larger + HEADER_SIZE <= needed_span(larger) < larger + HEADER_SIZE + ALIGN,
        needed_span(larger) % (ALIGN as int) == 0,
{
}

/// A request larger than the span of every free block fits nowhere.
pub proof fn lemma_too_large_fits_nowhere(blocks: Map<int, Block>, size: int)
    requires
        0 <= size,
        forall|b: int| #[trigger]
            blocks.dom().contains(b) && blocks[b].is_free ==> blocks[b].size + HEADER_SIZE < size,
    ensures
        no_fit(blocks, needed_span(size)),
{
    lemma_needed_span(size, size);
}

/// A block that was allocated for a request can hold every request of the
/// same or a smaller size.
pub proof fn lemma_carved_block_holds_smaller(
    blocks: Map<int, Block>,
    at: int,
    size: int,
    smaller: int,
)
    requires
        fits(blocks, at, needed_span(size)),
        0 <= smaller <= size,
    ensures
        needed_span(smaller) <= carved(blocks, at, needed_span(size))[at].size + HEADER_SIZE,
{
    lemma_needed_span(smaller, size);
}

/// After an allocated block is released, it is itself the first fit, and
/// the only one, for every request that its span can hold, provided that
/// the block directly before it is not free and that no free block at a
/// lower address fits.
pub proof fn lemma_released_block_is_first_fit(
    blocks: Map<int, Block>,
    capacity: int,
    at: int,
    needed: int,
)
    requires
        tiles(blocks, capacity),
        coalesced(blocks),
        blocks.dom().contains(at),
        !blocks[at].is_free,
        needed <= blocks[at].size + HEADER_SIZE,
        free_predecessor(blocks, at) is None,
        forall|b: int| #[trigger] blocks.dom().contains(b) && b < at ==> !fits(blocks, b, needed),
    ensures
        is_first_fit(released(blocks, at), at, needed),
        !no_fit(released(blocks, at), needed),
        forall|found: int| is_first_fit(released(blocks, at), found, needed) ==> found == at,
{
    let after = released(blocks, at);
    assert forall|b: int| #[trigger] after.dom().contains(b) && b < at implies !fits(
        after,
        b,
        needed,
    ) by {
        assert(blocks.dom().contains(b));
    }
    assert forall|found: int| is_first_fit(after, found, needed) implies found == at by {
        lemma_first_fit_unique(after, found, at, needed);
    }
}

} // verus!
