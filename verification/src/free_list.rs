//! The free list: an intrusive, singly linked chain through the descriptors
//! of the free blocks, kept in ascending address order.

use crate::allocator::{ascending, chained, link_after, Allocator};
use crate::block::{header_at, lemma_header_at_agrees, BlockHeader, HEADER_SIZE};
use crate::layout::{
    absorbed, allocated_within, block_end, coalesced, coalesced_before, fits, is_first_fit,
    lemma_absorbed_coalesced_before, lemma_absorbed_tiles, lemma_live_kept_step,
    live_payloads_kept, no_fit, payloads_kept, tiles, Block,
};
use vstd::prelude::*;

verus! {

/// A change confined to the descriptor of one block leaves the descriptors
/// of all other blocks, and all payloads, as they were.
pub(crate) proof fn lemma_store_frame(blocks: Map<int, Block>, before: Seq<u8>, after: Seq<u8>, at: int)
    requires
        tiles(blocks, before.len() as int),
        after.len() == before.len(),
        blocks.dom().contains(at),
        forall|i: int|
            0 <= i < before.len() && !(at <= i < at + HEADER_SIZE) ==> after[i] == before[i],
    ensures
        forall|b: int| #[trigger]
            blocks.dom().contains(b) && b != at ==> header_at(after, b) == header_at(before, b),
        payloads_kept(blocks, before, after),
{
    assert forall|b: int| #[trigger] blocks.dom().contains(b) && b != at implies header_at(
        after,
        b,
    ) == header_at(before, b) by {
        lemma_header_at_agrees(after, before, b);
    }
}

/// Taking one entry out of an ascending list keeps all the others in it, in
/// order, and that entry out of it.
pub(crate) proof fn lemma_remove_ascending(s: Seq<int>, k: int)
    requires
        ascending(s),
        0 <= k < s.len(),
    ensures
        ascending(s.remove(k)),
        !s.remove(k).contains(s[k]),
        forall|x: int| s.contains(x) && x != s[k] ==> #[trigger] s.remove(k).contains(x),
        forall|x: int| #[trigger] s.remove(k).contains(x) ==> s.contains(x),
{
    let r = s.remove(k);
    assert forall|i: int, j: int| 0 <= i < j < r.len() implies #[trigger] r[i] < #[trigger] r[j] by {
        let old_i = if i < k { i } else { i + 1 };
        let old_j = if j < k { j } else { j + 1 };
        assert(s[old_i] < s[old_j]);
    }
    assert forall|x: int| s.contains(x) && x != s[k] implies #[trigger] r.contains(x) by {
        let i = s.index_of(x);
        if i < k {
            assert(r[i] == x);
        } else {
            assert(r[i - 1] == x);
        }
    }
    assert forall|x: int| #[trigger] r.contains(x) implies s.contains(x) && x != s[k] by {
        let i = r.index_of(x);
        if i < k {
            assert(s[i] == x);
            assert(s[i] < s[k]);
        } else {
            assert(s[i + 1] == x);
            assert(s[k] < s[i + 1]);
        }
    }
}

/// Putting a new entry into an ascending list between its neighbours keeps
/// the list ascending and all the others in it.
pub(crate) proof fn lemma_insert_ascending(s: Seq<int>, k: int, v: int)
    requires
        ascending(s),
        0 <= k <= s.len(),
        k > 0 ==> s[k - 1] < v,
        k < s.len() ==> v < s[k],
    ensures
        ascending(s.insert(k, v)),
        s.insert(k, v).contains(v),
        forall|x: int| s.contains(x) ==> #[trigger] s.insert(k, v).contains(x),
        forall|x: int| #[trigger] s.insert(k, v).contains(x) ==> s.contains(x) || x == v,
{
    let r = s.insert(k, v);
    assert forall|i: int, j: int| 0 <= i < j < r.len() implies #[trigger] r[i] < #[trigger] r[j] by {
        let old_i = if i < k { i } else { i - 1 };
        let old_j = if j < k { j } else { j - 1 };
        if i != k && j != k {
            assert(s[old_i] < s[old_j]);
        } else if i == k {
            assert(s[k] <= s[old_j]);
        } else {
            assert(s[old_i] <= s[k - 1]);
        }
    }
    assert(r[k] == v);
    assert forall|x: int| s.contains(x) implies #[trigger] r.contains(x) by {
        let i = s.index_of(x);
        if i < k {
            assert(r[i] == x);
        } else {
            assert(r[i + 1] == x);
        }
    }
    assert forall|x: int| #[trigger] r.contains(x) implies s.contains(x) || x == v by {
        let i = r.index_of(x);
        if i < k {
            assert(s[i] == x);
        } else if i > k {
            assert(s[i - 1] == x);
        }
    }
}

/// Two ascending lists with the same entries agree on their first `k` entries.
proof fn lemma_ascending_agree_upto(s: Seq<int>, t: Seq<int>, k: int)
    requires
        ascending(s),
        ascending(t),
        forall|x: int| s.contains(x) <==> t.contains(x),
        0 <= k <= s.len(),
    ensures
        k <= t.len(),
        forall|i: int| 0 <= i < k ==> s[i] == t[i],
    decreases k,
{
    if k > 0 {
        lemma_ascending_agree_upto(s, t, k - 1);
        let x = s[k - 1];
        assert(s.contains(x));
        let m = t.index_of(x);
        if m < k - 1 {
            assert(s[m] < s[k - 1]);
        }
        let y = t[k - 1];
        assert(t.contains(y));
        let n = s.index_of(y);
        if n < k - 1 {
            assert(t[n] < t[k - 1]);
        }
        if m > k - 1 {
            assert(t[k - 1] < t[m]);
        }
        if n > k - 1 {
            assert(s[k - 1] < s[n]);
        }
    }
}

/// Two ascending lists with the same entries are the same list.
pub(crate) proof fn lemma_ascending_determined(s: Seq<int>, t: Seq<int>)
    requires
        ascending(s),
        ascending(t),
        forall|x: int| s.contains(x) <==> t.contains(x),
    ensures
        s == t,
{
    lemma_ascending_agree_upto(s, t, s.len() as int);
    lemma_ascending_agree_upto(t, s, t.len() as int);
    assert(s =~= t);
}

/// A chain stays a chain when the link of the entry before position `k` is
/// redirected past that position and entry `k` leaves the list.
proof fn lemma_chained_remove(before: Seq<u8>, after: Seq<u8>, free: Seq<int>, k: int)
    requires
        chained(before, free),
        0 <= k < free.len(),
        forall|i: int|
            0 <= i < free.len() && i != k - 1 && i != k ==> header_at(after, #[trigger] free[i]).next
                == header_at(before, free[i]).next,
        k > 0 ==> header_at(after, free[k - 1]).next == link_after(free, k),
    ensures
        chained(after, free.remove(k)),
{
    let r = free.remove(k);
    assert forall|i: int| 0 <= i < r.len() implies header_at(after, r[i]).next
        == #[trigger] link_after(r, i) by {
        if i < k - 1 {
            assert(header_at(before, free[i]).next == link_after(free, i));
            assert(r[i] == free[i]);
            assert(r[i + 1] == free[i + 1]);
        } else if i == k - 1 {
            assert(r[i] == free[i]);
            if i + 1 < r.len() {
                assert(r[i + 1] == free[i + 2]);
            }
        } else {
            assert(header_at(before, free[i + 1]).next == link_after(free, i + 1));
            assert(r[i] == free[i + 1]);
            if i + 1 < r.len() {
                assert(r[i + 1] == free[i + 2]);
            }
        }
    }
}

/// A chain stays a chain when a new entry is linked in at position `k`.
proof fn lemma_chained_insert(before: Seq<u8>, after: Seq<u8>, free: Seq<int>, k: int, at: int)
    requires
        chained(before, free),
        0 <= k <= free.len(),
        forall|i: int|
            0 <= i < free.len() && i != k - 1 ==> header_at(after, #[trigger] free[i]).next
                == header_at(before, free[i]).next,
        k > 0 ==> header_at(after, free[k - 1]).next == Some(at as usize),
        header_at(after, at).next == if k < free.len() {
            Some(free[k] as usize)
        } else {
            None
        },
    ensures
        chained(after, free.insert(k, at)),
{
    let r = free.insert(k, at);
    assert forall|i: int| 0 <= i < r.len() implies header_at(after, r[i]).next
        == #[trigger] link_after(r, i) by {
        if i < k - 1 {
            assert(header_at(before, free[i]).next == link_after(free, i));
            assert(r[i] == free[i]);
            assert(r[i + 1] == free[i + 1]);
        } else if i == k - 1 {
            assert(r[i] == free[i]);
            assert(r[i + 1] == at);
        } else if i == k {
            assert(r[i] == at);
            if i + 1 < r.len() {
                assert(r[i + 1] == free[i]);
            }
        } else {
            assert(header_at(before, free[i - 1]).next == link_after(free, i - 1));
            assert(r[i] == free[i - 1]);
            if i + 1 < r.len() {
                assert(r[i + 1] == free[i]);
            }
        }
    }
}

impl Allocator {
    /// The first block on the free list whose whole span, descriptor
    /// included, is at least `size` bytes.
    pub(crate) fn find_first_fit(&self, size: usize) -> (found: Option<usize>)
        requires
            self.inv(),
            self.all_free_listed(),
        ensures
            match found {
                Some(at) => is_first_fit(self.blocks@, at as int, size as int)
                    && self.free@.contains(at as int),
                None => no_fit(self.blocks@, size as int),
            },
    {
        proof {
            reveal(Allocator::inv);
        }
        let n: usize = self.heap.len();
        let mut first_free: Option<usize> = self.free_list;
        let ghost mut k: int = 0;
        loop
            invariant
                self.inv(),
                self.all_free_listed(),
                n == self.heap@.len(),
                0 <= k <= self.free@.len(),
                first_free == if k < self.free@.len() {
                    Some(self.free@[k] as usize)
                } else {
                    None
                },
                forall|j: int|
                    0 <= j < k ==> !fits(self.blocks@, #[trigger] self.free@[j], size as int),
            decreases self.free@.len() - k,
        {
            proof {
                reveal(Allocator::inv);
            }
            match first_free {
                None => {
                    assert forall|b: int| #[trigger] self.blocks@.dom().contains(b) implies !fits(
                        self.blocks@,
                        b,
                        size as int,
                    ) by {
                        if self.blocks@[b].is_free {
                            let j = self.free@.index_of(b);
                            assert(!fits(self.blocks@, self.free@[j], size as int));
                        }
                    }
                    return None;
                },
                Some(at) => {
                    assert(self.blocks@.dom().contains(self.free@[k]));
                    let header = BlockHeader::load(&self.heap, at);
                    if header.size + HEADER_SIZE >= size {
                        assert forall|b: int| #[trigger]
                            self.blocks@.dom().contains(b) && b < at implies !fits(
                            self.blocks@,
                            b,
                            size as int,
                        ) by {
                            if self.blocks@[b].is_free {
                                let j = self.free@.index_of(b);
                                if j >= k {
                                    assert(self.free@[k] <= self.free@[j]);
                                }
                                assert(!fits(self.blocks@, self.free@[j], size as int));
                            }
                        }
                        return Some(at);
                    }
                    first_free = header.next;
                    proof {
                        assert(header.next == link_after(self.free@, k));
                        k = k + 1;
                    }
                },
            }
        }
    }

    /// Redirecting the link of the entry before position `k` past that
    /// position takes entry `k` off the list and disturbs nothing else.
    proof fn lemma_unlinked(pre: Allocator, post: Allocator, k: int)
        requires
            pre.inv(),
            0 < k < pre.free@.len(),
            post.blocks@ == pre.blocks@,
            post.free_list == pre.free_list,
            post.free@ == pre.free@.remove(k),
            post.heap@.len() == pre.heap@.len(),
            forall|i: int|
                0 <= i < pre.heap@.len() && !(pre.free@[k - 1] <= i < pre.free@[k - 1]
                    + HEADER_SIZE) ==> post.heap@[i] == pre.heap@[i],
            header_at(post.heap@, pre.free@[k - 1]).size == header_at(
                pre.heap@,
                pre.free@[k - 1],
            ).size,
            header_at(post.heap@, pre.free@[k - 1]).is_free == header_at(
                pre.heap@,
                pre.free@[k - 1],
            ).is_free,
            header_at(post.heap@, pre.free@[k - 1]).next == link_after(pre.free@, k),
        ensures
            post.inv(),
            payloads_kept(pre.blocks@, pre.heap@, post.heap@),
    {
        reveal(Allocator::inv);
        let free = pre.free@;
        let prev = free[k - 1];
        assert(pre.blocks@.dom().contains(prev));
        lemma_store_frame(pre.blocks@, pre.heap@, post.heap@, prev);
        lemma_remove_ascending(free, k);
        assert forall|i: int| 0 <= i < free.len() && i != k - 1 && i != k implies header_at(
            post.heap@,
            #[trigger] free[i],
        ).next == header_at(pre.heap@, free[i]).next by {
            assert(pre.blocks@.dom().contains(free[i]));
            if i < k - 1 {
                assert(free[i] < free[k - 1]);
            } else {
                assert(free[k - 1] < free[i]);
            }
        }
        lemma_chained_remove(pre.heap@, post.heap@, free, k);
        assert forall|i: int| 0 <= i < post.free@.len() implies post.blocks@.dom().contains(
            #[trigger] post.free@[i],
        ) && post.blocks@[post.free@[i]].is_free by {
            if i < k {
                assert(pre.blocks@.dom().contains(free[i]));
            } else {
                assert(pre.blocks@.dom().contains(free[i + 1]));
            }
        }
    }

    /// Unlinks the descriptor at `header` from the free list.
    pub(crate) fn remove_from_free_list(&mut self, header: usize)
        requires
            old(self).inv(),
            old(self).free@.contains(header as int),
        ensures
            final(self).inv(),
            final(self).blocks@ == old(self).blocks@,
            final(self).heap@.len() == old(self).heap@.len(),
            final(self).free@ == old(self).free@.remove(old(self).free@.index_of(header as int)),
            !final(self).free@.contains(header as int),
            forall|x: int|
                old(self).free@.contains(x) && x != header ==> #[trigger] final(self).free@.contains(x),
            payloads_kept(old(self).blocks@, old(self).heap@, final(self).heap@),
    {
        proof {
            reveal(Allocator::inv);
        }
        let n: usize = self.heap.len();
        let ghost k = self.free@.index_of(header as int);
        let ghost free = self.free@;
        proof {
            lemma_remove_ascending(free, k);
        }
        match self.free_list {
            None => {},
            Some(first) => {
                if first == header {
                    let removed = BlockHeader::load(&self.heap, header);
                    assert(removed.next == link_after(free, 0));
                    self.free_list = removed.next;
                    self.free = Ghost(free.remove(0));
                    proof {
                        lemma_chained_remove(self.heap@, self.heap@, free, 0);
                        assert forall|i: int| 0 <= i < self.free@.len() implies
                            self.blocks@.dom().contains(#[trigger] self.free@[i])
                            && self.blocks@[self.free@[i]].is_free by {
                            assert(self.blocks@.dom().contains(free[i + 1]));
                        }
                    }
                    return ;
                }
                let mut prev: usize = first;
                let ghost mut j: int = 0;
                loop
                    invariant
                        self.inv(),
                        *self == *old(self),
                        n == self.heap@.len(),
                        free == self.free@,
                        0 <= j < k < free.len(),
                        free[k] == header,
                        prev == free[j],
                        !free.remove(k).contains(header as int),
                        forall|x: int|
                            free.contains(x) && x != header ==> #[trigger] free.remove(k).contains(
                                x,
                            ),
                    decreases free.len() - j,
                {
                    proof {
                        reveal(Allocator::inv);
                    }
                    assert(self.blocks@.dom().contains(free[j]));
                    assert(self.blocks@.dom().contains(free[j + 1]));
                    let mut prev_header = BlockHeader::load(&self.heap, prev);
                    assert(prev_header.next == link_after(free, j));
                    match prev_header.next {
                        None => {
                            return ;
                        },
                        Some(block) => {
                            if block == header {
                                let removed = BlockHeader::load(&self.heap, header);
                                assert(removed.next == link_after(free, k));
                                prev_header.next = removed.next;
                                prev_header.store(&mut self.heap, prev);
                                self.free = Ghost(free.remove(k));
                                proof {
                                    Self::lemma_unlinked(*old(self), *self, k);
                                }
                                return ;
                            }
                            prev = block;
                            proof {
                                j = j + 1;
                            }
                        },
                    }
                }
            },
        }
    }

    /// Writing the links that put the free block at `at` between positions
    /// `k - 1` and `k` of the list makes it entry `k` and disturbs nothing else.
    proof fn lemma_linked_in(pre: Allocator, post: Allocator, k: int, at: int)
        requires
            pre.inv(),
            pre.blocks@.dom().contains(at),
            pre.blocks@[at].is_free,
            0 <= k <= pre.free@.len(),
            k > 0 ==> pre.free@[k - 1] < at,
            k < pre.free@.len() ==> at < pre.free@[k],
            post.blocks@ == pre.blocks@,
            post.heap@.len() == pre.heap@.len(),
            post.free@ == pre.free@.insert(k, at),
            post.free_list == if k == 0 {
                Some(at as usize)
            } else {
                pre.free_list
            },
            forall|b: int| #[trigger]
                pre.blocks@.dom().contains(b) && b != at && (k == 0 || b != pre.free@[k - 1])
                    ==> header_at(post.heap@, b) == header_at(pre.heap@, b),
            header_at(post.heap@, at).size == header_at(pre.heap@, at).size,
            header_at(post.heap@, at).is_free == header_at(pre.heap@, at).is_free,
            header_at(post.heap@, at).next == if k < pre.free@.len() {
                Some(pre.free@[k] as usize)
            } else {
                None
            },
            k > 0 ==> header_at(post.heap@, pre.free@[k - 1]).size == header_at(
                pre.heap@,
                pre.free@[k - 1],
            ).size,
            k > 0 ==> header_at(post.heap@, pre.free@[k - 1]).is_free == header_at(
                pre.heap@,
                pre.free@[k - 1],
            ).is_free,
            k > 0 ==> header_at(post.heap@, pre.free@[k - 1]).next == Some(at as usize),
        ensures
            post.inv(),
    {
        reveal(Allocator::inv);
        let free = pre.free@;
        lemma_insert_ascending(free, k, at);
        assert forall|i: int| 0 <= i < post.free@.len() implies post.blocks@.dom().contains(
            #[trigger] post.free@[i],
        ) && post.blocks@[post.free@[i]].is_free by {
            if i < k {
                assert(pre.blocks@.dom().contains(free[i]));
            } else if i > k {
                assert(pre.blocks@.dom().contains(free[i - 1]));
            }
        }
        assert forall|i: int| 0 <= i < free.len() && i != k - 1 implies header_at(
            post.heap@,
            #[trigger] free[i],
        ).next == header_at(pre.heap@, free[i]).next by {
            assert(pre.blocks@.dom().contains(free[i]));
            if i < k - 1 {
                assert(free[i] < free[k - 1]);
            } else {
                assert(k < free.len());
                assert(free[k] <= free[i]);
                if k > 0 {
                    assert(free[k - 1] < free[i]);
                }
            }
        }
        lemma_chained_insert(pre.heap@, post.heap@, free, k, at);
        if k > 0 {
            assert(pre.blocks@.dom().contains(free[k - 1]));
        }
    }

    /// Links the free block at `header` into the free list at the position
    /// that keeps the list in ascending address order.
    pub(crate) fn add_to_free_list(&mut self, header: usize)
        requires
            old(self).inv(),
            old(self).blocks@.dom().contains(header as int),
            old(self).blocks@[header as int].is_free,
            !old(self).free@.contains(header as int),
        ensures
            final(self).inv(),
            final(self).blocks@ == old(self).blocks@,
            final(self).heap@.len() == old(self).heap@.len(),
            exists|k: int|
                0 <= k <= old(self).free@.len() && final(self).free@ == old(self).free@.insert(
                    k,
                    header as int,
                ),
            final(self).free@.contains(header as int),
            forall|x: int| old(self).free@.contains(x) ==> #[trigger] final(self).free@.contains(x),
            payloads_kept(old(self).blocks@, old(self).heap@, final(self).heap@),
    {
        proof {
            reveal(Allocator::inv);
        }
        let n: usize = self.heap.len();
        let ghost free = self.free@;
        let ghost before = self.heap@;
        let mut entry = BlockHeader::load(&self.heap, header);
        let first_node: Option<usize> = self.free_list;
        let at_head: bool = match first_node {
            None => true,
            Some(first) => first > header,
        };
        if at_head {
            entry.next = first_node;
            entry.store(&mut self.heap, header);
            self.free_list = Some(header);
            self.free = Ghost(free.insert(0, header as int));
            proof {
                lemma_store_frame(self.blocks@, before, self.heap@, header as int);
                lemma_insert_ascending(free, 0, header as int);
                Self::lemma_linked_in(*old(self), *self, 0, header as int);
            }
            return ;
        }
        let mut prev: usize = first_node.unwrap();
        let ghost mut j: int = 0;
        loop
            invariant
                self.inv(),
                *self == *old(self),
                n == self.heap@.len(),
                free == self.free@,
                before == self.heap@,
                entry == header_at(before, header as int),
                0 <= j < free.len(),
                prev == free[j],
                free[j] < header,
                self.blocks@.dom().contains(header as int),
                self.blocks@[header as int].is_free,
                !free.contains(header as int),
            decreases free.len() - j,
        {
            proof {
                reveal(Allocator::inv);
            }
            assert(self.blocks@.dom().contains(free[j]));
            let mut prev_header = BlockHeader::load(&self.heap, prev);
            let node: Option<usize> = prev_header.next;
            assert(node == link_after(free, j));
            let found: bool = match node {
                None => true,
                Some(next) => next > header,
            };
            if found {
                entry.next = node;
                entry.store(&mut self.heap, header);
                let ghost linked = self.heap@;
                prev_header.next = Some(header);
                prev_header.store(&mut self.heap, prev);
                self.free = Ghost(free.insert(j + 1, header as int));
                proof {
                    lemma_store_frame(self.blocks@, before, linked, header as int);
                    lemma_store_frame(self.blocks@, linked, self.heap@, prev as int);
                    lemma_insert_ascending(free, j + 1, header as int);
                    Self::lemma_linked_in(*old(self), *self, j + 1, header as int);
                }
                return ;
            }
            proof {
                assert(free[j + 1] != header);
                j = j + 1;
            }
            prev = node.unwrap();
        }
    }

    /// Growing the descriptor of a free block over its unlisted free
    /// successor merges the two and disturbs nothing else.
    proof fn lemma_absorbed_in_place(pre: Allocator, post: Allocator, at: int)
        requires
            pre.inv(),
            pre.blocks@.dom().contains(at),
            pre.blocks@.dom().contains(block_end(pre.blocks@, at)),
            pre.blocks@[at].is_free,
            pre.blocks@[block_end(pre.blocks@, at)].is_free,
            !pre.free@.contains(block_end(pre.blocks@, at)),
            post.blocks@ == absorbed(pre.blocks@, at),
            post.free@ == pre.free@,
            post.free_list == pre.free_list,
            post.heap@.len() == pre.heap@.len(),
            forall|i: int|
                0 <= i < pre.heap@.len() && !(at <= i < at + HEADER_SIZE) ==> post.heap@[i]
                    == pre.heap@[i],
            header_at(post.heap@, at).size == post.blocks@[at].size,
            header_at(post.heap@, at).is_free,
            header_at(post.heap@, at).next == header_at(pre.heap@, at).next,
        ensures
            post.inv(),
            payloads_kept(pre.blocks@, pre.heap@, post.heap@),
    {
        reveal(Allocator::inv);
        let blocks = pre.blocks@;
        let next = block_end(blocks, at);
        lemma_absorbed_tiles(blocks, pre.heap@.len() as int, at);
        lemma_store_frame(blocks, pre.heap@, post.heap@, at);
        assert forall|k: int| 0 <= k < post.free@.len() implies post.blocks@.dom().contains(
            #[trigger] post.free@[k],
        ) && post.blocks@[post.free@[k]].is_free by {
            assert(blocks.dom().contains(pre.free@[k]));
            assert(pre.free@.contains(pre.free@[k]));
        }
        assert forall|k: int| 0 <= k < post.free@.len() implies header_at(
            post.heap@,
            post.free@[k],
        ).next == #[trigger] link_after(post.free@, k) by {
            assert(header_at(pre.heap@, pre.free@[k]).next == link_after(pre.free@, k));
            assert(blocks.dom().contains(pre.free@[k]));
        }
    }

    /// Where the entry at position `k` is not directly followed by the next
    /// entry, it is not directly followed by any free block.
    proof fn lemma_advance(&self, k: int)
        requires
            self.inv(),
            self.all_free_listed(),
            0 <= k < self.free@.len() - 1,
            coalesced_before(self.blocks@, self.free@[k]),
            block_end(self.blocks@, self.free@[k]) != self.free@[k + 1],
        ensures
            coalesced_before(self.blocks@, self.free@[k + 1]),
    {
        reveal(Allocator::inv);
        let free = self.free@;
        let blocks = self.blocks@;
        assert(blocks.dom().contains(free[k]));
        assert(blocks.dom().contains(free[k + 1]));
        assert forall|a: int, b: int|
            #[trigger] blocks.dom().contains(a) && #[trigger] blocks.dom().contains(b)
                && blocks[a].is_free && a < free[k + 1] && a + HEADER_SIZE + blocks[a].size
                == b implies !blocks[b].is_free by {
            let i = free.index_of(a);
            if i > k {
                assert(free[k + 1] <= free[i]);
            }
            if i < k {
                assert(free[i] < free[k]);
            }
            if i == k && blocks[b].is_free {
                let j = free.index_of(b);
                if j <= k {
                    assert(free[j] <= free[k]);
                }
                assert(free[k + 1] <= free[j]);
            }
        }
    }

    /// Where the entry at position `k` is the last one, no free block at or
    /// after it is followed by a free block; nor is any in an empty list.
    proof fn lemma_last(&self, k: int)
        requires
            self.inv(),
            self.all_free_listed(),
            self.free@.len() == 0 || k == self.free@.len() - 1,
            self.free@.len() > 0 ==> coalesced_before(self.blocks@, self.free@[k]),
        ensures
            coalesced(self.blocks@),
    {
        reveal(Allocator::inv);
        let free = self.free@;
        let blocks = self.blocks@;
        assert forall|a: int, b: int|
            #[trigger] blocks.dom().contains(a) && #[trigger] blocks.dom().contains(b)
                && blocks[a].is_free && a + HEADER_SIZE + blocks[a].size
                == b implies !blocks[b].is_free by {
            assert(free.contains(a));
            let i = free.index_of(a);
            if i < k {
                assert(free[i] < free[k]);
            }
            if blocks[b].is_free {
                assert(free.contains(b));
                let j = free.index_of(b);
                if j < k {
                    assert(free[j] < free[k]);
                }
            }
        }
    }

    /// Merges every free block with the free blocks that directly follow it,
    /// in one pass over the free list from its head.
    pub(crate) fn merge_free_list(&mut self)
        requires
            old(self).inv(),
            old(self).all_free_listed(),
        ensures
            final(self).inv(),
            final(self).all_free_listed(),
            coalesced(final(self).blocks@),
            final(self).heap@.len() == old(self).heap@.len(),
            allocated_within(old(self).blocks@, final(self).blocks@),
            allocated_within(final(self).blocks@, old(self).blocks@),
            live_payloads_kept(old(self).blocks@, old(self).heap@, final(self).heap@),
    {
        let n: usize = self.heap.len();
        let mut free_block: Option<usize> = self.free_list;
        let ghost mut k: int = 0;
        proof {
            reveal(Allocator::inv);
        }
        loop
            invariant
                self.inv(),
                self.all_free_listed(),
                n == self.heap@.len(),
                self.heap@.len() == old(self).heap@.len(),
                allocated_within(old(self).blocks@, self.blocks@),
                allocated_within(self.blocks@, old(self).blocks@),
                live_payloads_kept(old(self).blocks@, old(self).heap@, self.heap@),
                0 <= k <= self.free@.len(),
                k == self.free@.len() ==> k == 0,
                free_block == if k < self.free@.len() {
                    Some(self.free@[k] as usize)
                } else {
                    None
                },
                k < self.free@.len() ==> coalesced_before(self.blocks@, self.free@[k]),
            decreases self.free@.len() - k,
        {
            let current: usize = match free_block {
                None => {
                    proof {
                        self.lemma_last(0);
                    }
                    return ;
                },
                Some(current) => current,
            };
            proof {
                self.lemma_entry(k);
                self.lemma_block(current as int);
            }
            let header = BlockHeader::load(&self.heap, current);
            let next: usize = match header.next {
                None => {
                    // Since it is the end of the list, the pass is over.
                    proof {
                        self.lemma_last(k);
                    }
                    return ;
                },
                Some(next) => next,
            };
            proof {
                self.lemma_entry(k + 1);
                self.lemma_block(next as int);
            }
            let is_adjacent_with_next: bool = current + (header.size + HEADER_SIZE) == next;
            if is_adjacent_with_next {
                let next_header = BlockHeader::load(&self.heap, next);
                let next_size: usize = next_header.size + HEADER_SIZE;
                let ghost listed = *self;
                proof {
                    assert(listed.free@.contains(next as int));
                    let found = listed.free@.index_of(next as int);
                    if found < k + 1 {
                        assert(listed.free@[found] < listed.free@[k + 1]);
                    }
                    if found > k + 1 {
                        assert(listed.free@[k + 1] < listed.free@[found]);
                    }
                }
                self.remove_from_free_list(next);
                let ghost unlinked = *self;
                proof {
                    assert(unlinked.free@[k] == current);
                    unlinked.lemma_entry(k);
                    unlinked.lemma_block(current as int);
                }
                let mut merged = BlockHeader::load(&self.heap, current);
                merged.size = merged.size + next_size;
                merged.store(&mut self.heap, current);
                self.blocks = Ghost(absorbed(listed.blocks@, current as int));
                proof {
                    Self::lemma_absorbed_in_place(unlinked, *self, current as int);
                    listed.lemma_tiles();
                    lemma_absorbed_tiles(listed.blocks@, n as int, current as int);
                    lemma_absorbed_coalesced_before(listed.blocks@, n as int, current as int);
                    lemma_live_kept_step(
                        old(self).blocks@,
                        listed.blocks@,
                        old(self).heap@,
                        listed.heap@,
                        unlinked.heap@,
                    );
                    lemma_live_kept_step(
                        old(self).blocks@,
                        listed.blocks@,
                        old(self).heap@,
                        unlinked.heap@,
                        self.heap@,
                    );
                    assert forall|a: int| #[trigger]
                        self.blocks@.dom().contains(a)
                            && self.blocks@[a].is_free implies self.free@.contains(a) by {
                        assert(listed.blocks@.dom().contains(a));
                        assert(listed.free@.contains(a));
                    }
                }
            } else {
                free_block = Some(next);
                proof {
                    self.lemma_advance(k);
                    k = k + 1;
                }
            }
        }
    }
}

} // verus!
