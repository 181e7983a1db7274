//! The segmented list.
//!
//! `SegmentedList` is a growable, array-like container that stores its
//! elements in a chain of blocks whose element capacities double: block `b`
//! holds `START_SIZE * 2^b` elements.  A block, once allocated, is never
//! moved or resized, so growing the list never relocates an element that
//! was already written.  A logical index is mapped to its block and the
//! offset inside that block by bit-length arithmetic alone, without a
//! stored table of block boundaries.

use vstd::prelude::*;
use vstd::arithmetic::power2::{
    pow2, lemma_pow2_unfold, lemma_pow2_adds, lemma_pow2_strictly_increases, lemma2_to64,
};
use crate::growth::{
    chunk_cap, chunk_start, chunk_of, chunk_cap_sum, lemma_chunk_step, lemma_chunk_cap_sum,
    lemma_chunk_start_monotonic, lemma_chunk_of_range, lemma_chunk_of_is,
};

verus! {

/// Number of elements the first block holds.
pub const START_SIZE: usize = 8;

/// Hard ceiling on the number of blocks a list may chain.
pub const BLOCK_COUNT: usize = 24;

/// The greatest length a list can reach: the cumulative capacity of all
/// `BLOCK_COUNT` blocks, that is `START_SIZE * (2^BLOCK_COUNT - 1)`.
pub const MAX_LEN: usize = 134217720;

/// Element capacity of block `b`: `START_SIZE * 2^b`.
pub open spec fn seg_cap(b: int) -> int {
    chunk_cap(START_SIZE as int, b)
}

/// Logical index at which block `b` starts: `START_SIZE * (2^b - 1)`,
/// the summed capacity of all blocks before it.
pub open spec fn seg_start(b: int) -> int {
    chunk_start(START_SIZE as int, b)
}

/// The block that logical index `idx` falls in.
pub open spec fn seg_block_of(idx: int) -> int {
    chunk_of(START_SIZE as int, idx)
}

/// How many slots of block `b` are initialized in a list of length `len`:
/// all of them once `len` has passed the end of the block, none before
/// `len` reaches its start.
pub open spec fn seg_fill(len: int, b: int) -> int {
    if len <= seg_start(b) {
        0
    } else if len >= seg_start(b) + seg_cap(b) {
        seg_cap(b)
    } else {
        len - seg_start(b)
    }
}

/// The concrete values of the geometry at its two edges: block 0 starts at
/// index 0 and holds `START_SIZE` elements, and the chain of all
/// `BLOCK_COUNT` blocks holds `MAX_LEN` elements in total.
pub proof fn lemma_seg_bounds()
    ensures
        seg_start(0) == 0,
        seg_cap(0) == START_SIZE as int,
        seg_start(1) == START_SIZE as int,
        seg_start(BLOCK_COUNT as int) == MAX_LEN as int,
{
    lemma2_to64();
}

/// `seg_start(b) + START_SIZE == 2^(b + 3)`: shifting an index up by
/// `START_SIZE` turns block starts into powers of two, which is what the
/// bit-length computation in `idx_to_block_idx` exploits.
pub proof fn lemma_seg_start_pow2(b: int)
    requires
        0 <= b,
    ensures
        seg_start(b) == pow2((b + 3) as nat) - START_SIZE as int,
        seg_cap(b) == pow2((b + 3) as nat),
{
    lemma_pow2_adds(3, b as nat);
    lemma2_to64();
}

/// A cached block/offset pair for one logical index, computed with
/// [`SegmentedList::compute_segmented_idx`] and consumed by
/// [`SegmentedList::get_with_segmented_idx`] and
/// [`SegmentedList::get_mut_with_segmented_idx`].  Caching the pair lets a
/// caller index the same slot repeatedly without redoing the mapping
/// arithmetic.  A pair is only as durable as the slot it points at: after
/// `clear` removes the slot, the pair must be discarded.
#[derive(Copy, Clone)]
pub struct SegmentedIdx(pub usize, pub usize);

/// A growable container with stable element positions.  Elements live in a
/// chain of doubling blocks; `push` appends, `get` reads by logical index,
/// and a block that has been allocated is kept until the list itself goes
/// away.
pub struct SegmentedList<T> {
    blocks: Vec<Vec<T>>,
    len: usize,
}

impl<T> SegmentedList<T> {
    /// Structural invariant: at least one and at most `BLOCK_COUNT` blocks
    /// are allocated, the length fits in the allocated blocks, and block
    /// `b` holds exactly the initialized slots that a length of `len`
    /// dictates.
    pub closed spec fn wf(&self) -> bool {
        &&& 1 <= self.blocks@.len() <= BLOCK_COUNT as int
        &&& self.len as int <= seg_start(self.blocks@.len() as int)
        &&& forall|b: int|
            0 <= b < self.blocks@.len() ==> (#[trigger] self.blocks@[b])@.len() == seg_fill(
                self.len as int,
                b,
            )
    }

    /// The number of blocks currently allocated; capacity is sticky, so
    /// this never shrinks while the list lives.
    pub closed spec fn spec_blocks(&self) -> int {
        self.blocks@.len() as int
    }
}

impl<T> View for SegmentedList<T> {
    type V = Seq<T>;

    /// A list abstracts to the sequence of its elements in push order.
    closed spec fn view(&self) -> Seq<T> {
        Seq::new(
            self.len as nat,
            |i: int| self.blocks@[seg_block_of(i)]@[i - seg_start(seg_block_of(i))],
        )
    }
}

/// For an index below the list's length, the block holding it lies inside
/// the allocated chain and the offset inside that block is an initialized
/// slot — so a pair computed for an in-range index always finds its
/// element.
pub proof fn lemma_index_in_blocks(len: int, nblocks: int, idx: int)
    requires
        0 <= idx < len,
        1 <= nblocks,
        len <= seg_start(nblocks),
    ensures
        0 <= seg_block_of(idx) < nblocks,
        seg_start(seg_block_of(idx)) <= idx < seg_start(seg_block_of(idx)) + seg_cap(
            seg_block_of(idx),
        ),
        0 <= idx - seg_start(seg_block_of(idx)) < seg_fill(len, seg_block_of(idx)),
        seg_fill(len, seg_block_of(idx)) <= seg_cap(seg_block_of(idx)),
{
    lemma_chunk_of_range(START_SIZE as int, idx);
    let b = seg_block_of(idx);
    lemma_chunk_step(START_SIZE as int, b);
    if b >= nblocks {
        lemma_chunk_start_monotonic(START_SIZE as int, nblocks, b);
    }
    lemma_chunk_start_monotonic(START_SIZE as int, 0, b);
}

/// How much of a list of length `len` lies before block `b`: the block's
/// start, capped at the length.
pub open spec fn seg_up_to(len: int, b: int) -> int {
    if len <= seg_start(b) {
        len
    } else {
        seg_start(b)
    }
}

/// Block `b` of a well-formed list holds exactly the slice of the list's
/// sequence that falls between its start and the next block's start.
proof fn lemma_block_is_segment<T>(s: SegmentedList<T>, b: int)
    requires
        s.wf(),
        0 <= b < s.spec_blocks(),
    ensures
        s.blocks@[b]@ == s@.subrange(seg_up_to(s@.len() as int, b), seg_up_to(
            s@.len() as int,
            b + 1,
        )),
{
    let len = s@.len() as int;
    lemma_chunk_step(START_SIZE as int, b);
    lemma_chunk_start_monotonic(START_SIZE as int, 0, b);
    let lo = seg_up_to(len, b);
    let hi = seg_up_to(len, b + 1);
    if len <= seg_start(b) {
        assert(s.blocks@[b]@.len() == 0);
        assert(s.blocks@[b]@ =~= s@.subrange(lo, hi));
    } else {
        assert forall|o: int| 0 <= o < seg_fill(len, b) implies s@.subrange(lo, hi)[o]
            == s.blocks@[b]@[o] by {
            lemma_chunk_of_is(START_SIZE as int, seg_start(b) + o, b);
        }
        assert(s.blocks@[b]@ =~= s@.subrange(lo, hi));
    }
}

impl<T> SegmentedList<T> {
    /// Maps a logical index to its block and the offset inside that block.
    ///
    /// For indices past the first block the mapping shifts the index up by
    /// `START_SIZE`, which turns every block start into an exact power of
    /// two; the bit length of the shifted index then names the block.  The
    /// bit length is found by doubling a power of two up to the shifted
    /// index, so the running power is exactly the shifted block start and
    /// no separate table or shift instruction is needed.
    fn idx_to_block_idx(&self, idx: usize) -> (r: SegmentedIdx)
        requires
            idx as int <= seg_start(BLOCK_COUNT as int),
        ensures
            r.0 as int == seg_block_of(idx as int),
            r.0 <= BLOCK_COUNT,
            idx < MAX_LEN ==> r.0 < BLOCK_COUNT,
            r.1 as int == idx as int - seg_start(r.0 as int),
            seg_start(r.0 as int) <= idx as int,
            (idx as int) < seg_start(r.0 as int) + seg_cap(r.0 as int),
    {
        proof {
            lemma_seg_bounds();
        }
        if idx < START_SIZE {
            proof {
                lemma_chunk_of_is(START_SIZE as int, idx as int, 0);
            }
            return SegmentedIdx(0, idx);
        }
        let adjusted: usize = idx + START_SIZE;
        let mut p: usize = 1;
        let mut w: usize = 0;
        proof {
            lemma2_to64();
        }
        while p <= adjusted / 2
            invariant
                p == pow2(w as nat),
                1 <= p <= adjusted,
                w <= 27,
                adjusted <= 0x8000000,
            decreases adjusted - p,
        {
            proof {
                lemma_pow2_unfold((w + 1) as nat);
                lemma2_to64();
                if w == 27 {
                    assert(false);
                } else if w > 27 {
                    lemma_pow2_strictly_increases(27, w as nat);
                    assert(false);
                }
            }
            p = p * 2;
            w = w + 1;
        }
        // Now pow2(w) == p <= adjusted < 2 * p.
        proof {
            assert(adjusted < 2 * p);
            // idx >= START_SIZE, so adjusted >= 2 * START_SIZE and p > START_SIZE,
            // hence w >= 4 and the block index w - 3 is at least 1.
            if w < 4 {
                lemma2_to64();
                assert(pow2(w as nat) <= 8) by {
                    if w == 0 {
                    } else if w == 1 {
                    } else if w == 2 {
                    } else {
                        assert(w == 3);
                    }
                }
                assert(false);
            }
            lemma_seg_start_pow2(w - 3);
            lemma_seg_start_pow2(w - 2);
            lemma_pow2_unfold((w + 1) as nat);
            lemma_chunk_of_is(START_SIZE as int, idx as int, w as int - 3);
        }
        let block: usize = w - 3;
        let offset: usize = idx - (p - START_SIZE);
        proof {
            if idx < MAX_LEN && block >= BLOCK_COUNT {
                lemma_chunk_start_monotonic(START_SIZE as int, BLOCK_COUNT as int, block as int);
            }
            if block > BLOCK_COUNT {
                lemma_chunk_start_monotonic(START_SIZE as int, BLOCK_COUNT as int + 1, block as int);
                lemma_chunk_step(START_SIZE as int, BLOCK_COUNT as int);
                lemma_chunk_start_monotonic(START_SIZE as int, 0, BLOCK_COUNT as int);
            }
        }
        SegmentedIdx(block, offset)
    }

    /// Builds an empty list.  The first block is allocated eagerly, so a
    /// fresh list already has a capacity of `START_SIZE` elements.
    pub fn new() -> (r: Self)
        ensures
            r.wf(),
            r@ == Seq::<T>::empty(),
            r.spec_blocks() == 1,
    {
        let mut blocks: Vec<Vec<T>> = Vec::new();
        blocks.push(Vec::with_capacity(START_SIZE));
        let r = SegmentedList { blocks, len: 0 };
        proof {
            lemma_seg_bounds();
            assert(r@ =~= Seq::<T>::empty());
        }
        r
    }

    /// Logical number of elements.
    pub fn len(&self) -> (r: usize)
        ensures
            r == self@.len(),
    {
        self.len
    }

    /// True when the list holds no element.
    pub fn is_empty(&self) -> (r: bool)
        ensures
            r == (self@.len() == 0),
    {
        self.len == 0
    }

    /// Computes the cached block/offset pair for `idx`.  Any index up to
    /// and including the current length is accepted — the pair for the
    /// length itself names the slot the next `push` will fill — while a
    /// larger index yields nothing.
    pub fn compute_segmented_idx(&self, idx: usize) -> (r: Option<SegmentedIdx>)
        requires
            self.wf(),
        ensures
            idx as int <= self@.len() ==> (r matches Some(si) && {
                &&& si.0 as int == seg_block_of(idx as int)
                &&& si.1 as int == idx as int - seg_start(si.0 as int)
                &&& seg_start(si.0 as int) + si.1 as int == idx as int
                &&& (si.1 as int) < seg_cap(si.0 as int)
            }),
            idx as int > self@.len() ==> r is None,
    {
        if idx > self.len {
            None
        } else {
            proof {
                lemma_chunk_start_monotonic(
                    START_SIZE as int,
                    self.blocks@.len() as int,
                    BLOCK_COUNT as int,
                );
            }
            Some(self.idx_to_block_idx(idx))
        }
    }

    /// Reads the slot a cached pair points at, without redoing the index
    /// mapping.  Yields the element exactly when the pair points at an
    /// initialized slot — in particular, a pair computed before a `clear`
    /// finds nothing afterwards.
    pub fn get_with_segmented_idx(&self, si: SegmentedIdx) -> (r: Option<&T>)
        requires
            self.wf(),
        ensures
            (r is Some) <==> ((si.0 as int) < self.spec_blocks() && (si.1 as int) < seg_fill(
                self@.len() as int,
                si.0 as int,
            )),
            r matches Some(v) ==> (seg_start(si.0 as int) + si.1 as int) < self@.len() && *v == self@[
                seg_start(si.0 as int) + si.1 as int
            ],
    {
        if si.0 < self.blocks.len() && si.1 < self.blocks[si.0].len() {
            proof {
                let pos = seg_start(si.0 as int) + si.1 as int;
                lemma_chunk_step(START_SIZE as int, si.0 as int);
                lemma_chunk_start_monotonic(START_SIZE as int, 0, si.0 as int);
                lemma_chunk_of_is(START_SIZE as int, pos, si.0 as int);
            }
            Some(&self.blocks[si.0][si.1])
        } else {
            None
        }
    }

    /// Reads the element at `idx`, or nothing when `idx` is out of range.
    pub fn get(&self, idx: usize) -> (r: Option<&T>)
        requires
            self.wf(),
        ensures
            idx < self@.len() ==> (r matches Some(v) && *v == self@[idx as int]),
            idx >= self@.len() ==> r is None,
    {
        if idx >= self.len {
            return None;
        }
        proof {
            lemma_chunk_start_monotonic(
                START_SIZE as int,
                self.blocks@.len() as int,
                BLOCK_COUNT as int,
            );
            lemma_index_in_blocks(self.len as int, self.blocks@.len() as int, idx as int);
        }
        let si = self.idx_to_block_idx(idx);
        Some(&self.blocks[si.0][si.1])
    }

    /// Reads the element at `idx`.  Unlike `get`, an out-of-range index is
    /// a caller error here, not a recoverable absence, so it is ruled out
    /// up front.
    pub fn index(&self, idx: usize) -> (r: &T)
        requires
            self.wf(),
            idx < self@.len(),
        ensures
            *r == self@[idx as int],
    {
        proof {
            lemma_chunk_start_monotonic(
                START_SIZE as int,
                self.blocks@.len() as int,
                BLOCK_COUNT as int,
            );
            lemma_index_in_blocks(self.len as int, self.blocks@.len() as int, idx as int);
        }
        let si = self.idx_to_block_idx(idx);
        &self.blocks[si.0][si.1]
    }

    /// The first element, which always sits at offset 0 of block 0.
    pub fn first(&self) -> (r: Option<&T>)
        requires
            self.wf(),
        ensures
            self@.len() == 0 ==> r is None,
            self@.len() > 0 ==> (r matches Some(v) && *v == self@[0]),
    {
        if self.len == 0 {
            None
        } else {
            proof {
                lemma_seg_bounds();
            }
            self.get_with_segmented_idx(SegmentedIdx(0, 0))
        }
    }

    /// The last element, found by mapping `len - 1`.
    pub fn last(&self) -> (r: Option<&T>)
        requires
            self.wf(),
        ensures
            self@.len() == 0 ==> r is None,
            self@.len() > 0 ==> (r matches Some(v) && *v == self@[self@.len() - 1]),
    {
        if self.len == 0 {
            None
        } else {
            proof {
                lemma_chunk_start_monotonic(
                    START_SIZE as int,
                    self.blocks@.len() as int,
                    BLOCK_COUNT as int,
                );
                lemma_index_in_blocks(
                    self.len as int,
                    self.blocks@.len() as int,
                    self.len as int - 1,
                );
            }
            let si = self.idx_to_block_idx(self.len - 1);
            self.get_with_segmented_idx(si)
        }
    }

    /// Total number of elements the allocated blocks can hold: the summed
    /// capacity of every allocated block.  This only counts blocks that
    /// exist, so it says how far the list can grow before another block
    /// must be allocated.
    pub fn capacity(&self) -> (r: usize)
        requires
            self.wf(),
        ensures
            r as int == seg_start(self.spec_blocks()),
            r as int == chunk_cap_sum(START_SIZE as int, self.spec_blocks()),
            r >= self@.len(),
    {
        let mut total: usize = 0;
        let mut cap: usize = START_SIZE;
        let mut b: usize = 0;
        proof {
            lemma_seg_bounds();
            lemma_chunk_cap_sum(START_SIZE as int, self.spec_blocks());
        }
        while b < self.blocks.len()
            invariant
                self.wf(),
                total as int == seg_start(b as int),
                cap as int == seg_cap(b as int),
                b <= self.blocks@.len(),
            decreases self.blocks@.len() - b,
        {
            proof {
                lemma_chunk_step(START_SIZE as int, b as int);
                lemma_seg_start_pow2(b as int + 1);
                lemma2_to64();
                if b as int + 4 < 27 {
                    lemma_pow2_strictly_increases((b + 4) as nat, 27);
                }
                lemma_chunk_start_monotonic(
                    START_SIZE as int,
                    b as int + 1,
                    BLOCK_COUNT as int,
                );
            }
            total = total + cap;
            cap = cap * 2;
            b = b + 1;
        }
        total
    }

    /// A mutable borrow of the element at `idx`, or nothing when `idx` is
    /// out of range — like `get`, an absent element is a recoverable
    /// outcome here, not an error.  While the borrow lives, the list reads
    /// as the old sequence with slot `idx` replaced by whatever the caller
    /// wrote through it; an out-of-range call leaves the list untouched.
    pub fn get_mut(&mut self, idx: usize) -> (r: Option<&mut T>)
        requires
            old(self).wf(),
        ensures
            (r is Some) <==> idx < old(self)@.len(),
            r matches Some(m) ==> {
                &&& *m == old(self)@[idx as int]
                &&& final(self)@.len() == old(self)@.len()
                &&& final(self)@[idx as int] == *final(m)
                &&& forall|j: int|
                    0 <= j < old(self)@.len() && j != idx as int ==> final(self)@[j] == old(
                        self,
                    )@[j]
                &&& final(self).wf()
                &&& final(self).spec_blocks() == old(self).spec_blocks()
            },
            r is None ==> *final(self) == *old(self),
    {
        if idx >= self.len {
            return None;
        }
        proof {
            lemma_chunk_start_monotonic(
                START_SIZE as int,
                self.blocks@.len() as int,
                BLOCK_COUNT as int,
            );
            lemma_index_in_blocks(self.len as int, self.blocks@.len() as int, idx as int);
            let len0 = self.len as int;
            let nb = self.blocks@.len() as int;
            assert forall|i: int| 0 <= i < len0 implies 0 <= #[trigger] seg_block_of(i) < nb
                && seg_start(seg_block_of(i)) <= i && 0 <= i - seg_start(seg_block_of(i))
                < seg_fill(len0, seg_block_of(i)) && seg_fill(len0, seg_block_of(i)) <= seg_cap(
                seg_block_of(i),
            ) by {
                lemma_index_in_blocks(len0, nb, i);
            }
        }
        let si = self.idx_to_block_idx(idx);
        Some(&mut self.blocks[si.0][si.1])
    }

    /// Like [`Self::get_mut`], but for callers that treat an out-of-range
    /// index as a programming error: deliberately stricter, the index must
    /// be in range up front.
    pub fn index_mut(&mut self, idx: usize) -> (r: &mut T)
        requires
            old(self).wf(),
            idx < old(self)@.len(),
        ensures
            *r == old(self)@[idx as int],
            final(self)@.len() == old(self)@.len(),
            final(self)@[idx as int] == *final(r),
            forall|j: int|
                0 <= j < old(self)@.len() && j != idx as int ==> final(self)@[j] == old(self)@[j],
            final(self).wf(),
            final(self).spec_blocks() == old(self).spec_blocks(),
    {
        proof {
            lemma_chunk_start_monotonic(
                START_SIZE as int,
                self.blocks@.len() as int,
                BLOCK_COUNT as int,
            );
            lemma_index_in_blocks(self.len as int, self.blocks@.len() as int, idx as int);
            let len0 = self.len as int;
            let nb = self.blocks@.len() as int;
            assert forall|i: int| 0 <= i < len0 implies 0 <= #[trigger] seg_block_of(i) < nb
                && seg_start(seg_block_of(i)) <= i && 0 <= i - seg_start(seg_block_of(i))
                < seg_fill(len0, seg_block_of(i)) && seg_fill(len0, seg_block_of(i)) <= seg_cap(
                seg_block_of(i),
            ) by {
                lemma_index_in_blocks(len0, nb, i);
            }
        }
        let si = self.idx_to_block_idx(idx);
        &mut self.blocks[si.0][si.1]
    }

    /// A mutable borrow through a cached block/offset pair, skipping the
    /// index mapping.  Yields the element exactly when the pair points at
    /// an initialized slot — so, as for the read-only flavour, a pair
    /// computed before a `clear` finds nothing afterwards.  A pair that
    /// points at no slot leaves the list untouched.
    pub fn get_mut_with_segmented_idx(&mut self, si: SegmentedIdx) -> (r: Option<&mut T>)
        requires
            old(self).wf(),
        ensures
            (r is Some) <==> ((si.0 as int) < old(self).spec_blocks() && (si.1 as int) < seg_fill(
                old(self)@.len() as int,
                si.0 as int,
            )),
            r matches Some(m) ==> {
                let pos = seg_start(si.0 as int) + si.1 as int;
                &&& pos < old(self)@.len()
                &&& *m == old(self)@[pos]
                &&& final(self)@.len() == old(self)@.len()
                &&& final(self)@[pos] == *final(m)
                &&& forall|j: int|
                    0 <= j < old(self)@.len() && j != pos ==> final(self)@[j] == old(self)@[j]
                &&& final(self).wf()
                &&& final(self).spec_blocks() == old(self).spec_blocks()
            },
            r is None ==> *final(self) == *old(self),
    {
        if si.0 >= self.blocks.len() || si.1 >= self.blocks[si.0].len() {
            return None;
        }
        proof {
            let pos = seg_start(si.0 as int) + si.1 as int;
            let len0 = self.len as int;
            let nb = self.blocks@.len() as int;
            lemma_chunk_step(START_SIZE as int, si.0 as int);
            lemma_chunk_start_monotonic(START_SIZE as int, 0, si.0 as int);
            lemma_chunk_of_is(START_SIZE as int, pos, si.0 as int);
            assert forall|i: int| 0 <= i < len0 implies 0 <= #[trigger] seg_block_of(i) < nb
                && seg_start(seg_block_of(i)) <= i && 0 <= i - seg_start(seg_block_of(i))
                < seg_fill(len0, seg_block_of(i)) && seg_fill(len0, seg_block_of(i)) <= seg_cap(
                seg_block_of(i),
            ) by {
                lemma_index_in_blocks(len0, nb, i);
            }
        }
        Some(&mut self.blocks[si.0][si.1])
    }

    /// A mutable borrow of the first element, which always sits at offset 0
    /// of block 0 — or nothing when the list is empty.
    pub fn first_mut(&mut self) -> (r: Option<&mut T>)
        requires
            old(self).wf(),
        ensures
            (r is Some) <==> old(self)@.len() > 0,
            r matches Some(m) ==> {
                &&& *m == old(self)@[0]
                &&& final(self)@.len() == old(self)@.len()
                &&& final(self)@[0] == *final(m)
                &&& forall|j: int| 0 < j < old(self)@.len() ==> final(self)@[j] == old(self)@[j]
                &&& final(self).wf()
                &&& final(self).spec_blocks() == old(self).spec_blocks()
            },
            r is None ==> *final(self) == *old(self),
    {
        proof {
            lemma_seg_bounds();
        }
        self.get_mut_with_segmented_idx(SegmentedIdx(0, 0))
    }

    /// A mutable borrow of the last element, found by mapping `len - 1` —
    /// or nothing when the list is empty.
    pub fn last_mut(&mut self) -> (r: Option<&mut T>)
        requires
            old(self).wf(),
        ensures
            (r is Some) <==> old(self)@.len() > 0,
            r matches Some(m) ==> {
                &&& *m == old(self)@[old(self)@.len() - 1]
                &&& final(self)@.len() == old(self)@.len()
                &&& final(self)@[old(self)@.len() - 1] == *final(m)
                &&& forall|j: int|
                    0 <= j < old(self)@.len() - 1 ==> final(self)@[j] == old(self)@[j]
                &&& final(self).wf()
                &&& final(self).spec_blocks() == old(self).spec_blocks()
            },
            r is None ==> *final(self) == *old(self),
    {
        if self.len == 0 {
            return None;
        }
        proof {
            lemma_chunk_start_monotonic(
                START_SIZE as int,
                self.blocks@.len() as int,
                BLOCK_COUNT as int,
            );
            lemma_index_in_blocks(self.len as int, self.blocks@.len() as int, self.len as int - 1);
        }
        let si = self.idx_to_block_idx(self.len - 1);
        self.get_mut_with_segmented_idx(si)
    }

    /// Appends the next block to the chain so that it can take the coming
    /// pushes.  The new block starts empty; its element capacity doubles
    /// the previous block's.
    fn alloc_block(&mut self, block: usize)
        requires
            old(self).wf(),
            block as int == old(self).spec_blocks(),
            block < BLOCK_COUNT,
            old(self)@.len() <= seg_start(block as int),
        ensures
            final(self).wf(),
            final(self)@ == old(self)@,
            final(self).spec_blocks() == block as int + 1,
            forall|b: int|
                0 <= b < block as int ==> final(self).blocks@[b] == old(self).blocks@[b],
            final(self).blocks@[block as int]@ == Seq::<T>::empty(),
    {
        let mut elems: usize = START_SIZE;
        let mut i: usize = 0;
        proof {
            lemma_seg_bounds();
        }
        while i < block
            invariant
                elems as int == seg_cap(i as int),
                i <= block < BLOCK_COUNT,
            decreases block - i,
        {
            proof {
                lemma_chunk_step(START_SIZE as int, i as int);
                lemma_seg_start_pow2(i as int + 1);
                lemma2_to64();
                if i as int + 4 < 27 {
                    lemma_pow2_strictly_increases((i + 4) as nat, 27);
                }
            }
            elems = elems * 2;
            i = i + 1;
        }
        self.blocks.push(Vec::with_capacity(elems));
        proof {
            let nb = old(self).spec_blocks();
            lemma_chunk_step(START_SIZE as int, nb);
            lemma_chunk_start_monotonic(START_SIZE as int, 0, nb);
            assert forall|b: int| 0 <= b < self.blocks@.len() implies (
            #[trigger] self.blocks@[b])@.len() == seg_fill(self.len as int, b) by {
                if b < nb {
                    assert(self.blocks@[b] == old(self).blocks@[b]);
                }
            }
            assert forall|i: int| 0 <= i < self.len as int implies self@[i] == old(self)@[i] by {
                lemma_index_in_blocks(self.len as int, nb, i);
            }
            assert(self@ =~= old(self)@);
        }
    }

    /// Appends `v`.  The index it lands at is the current length; when
    /// that index opens a new block, the block is allocated first.
    pub fn push(&mut self, v: T)
        requires
            old(self).wf(),
            old(self)@.len() < MAX_LEN,
        ensures
            final(self).wf(),
            final(self)@ == old(self)@.push(v),
            final(self).spec_blocks() == if seg_block_of(old(self)@.len() as int) >= old(
                self,
            ).spec_blocks() {
                old(self).spec_blocks() + 1
            } else {
                old(self).spec_blocks()
            },
    {
        proof {
            lemma_seg_bounds();
            lemma_chunk_start_monotonic(
                START_SIZE as int,
                self.blocks@.len() as int,
                BLOCK_COUNT as int,
            );
        }
        let idx = self.len;
        let si = self.idx_to_block_idx(idx);
        proof {
            let nb = self.blocks@.len() as int;
            if si.0 as int > nb {
                lemma_chunk_start_monotonic(START_SIZE as int, nb + 1, si.0 as int);
                lemma_chunk_step(START_SIZE as int, nb);
                lemma_chunk_start_monotonic(START_SIZE as int, 0, nb);
            }
        }
        if si.0 == self.blocks.len() {
            self.alloc_block(si.0);
        }
        proof {
            lemma_chunk_step(START_SIZE as int, si.0 as int);
            lemma_chunk_start_monotonic(START_SIZE as int, si.0 as int + 1, self.blocks@.len() as int);
        }
        self.blocks[si.0].push(v);
        self.len = self.len + 1;
        proof {
            let nb = self.blocks@.len() as int;
            let b0 = si.0 as int;
            let len0 = old(self)@.len() as int;
            assert forall|b: int| 0 <= b < nb implies (#[trigger] self.blocks@[b])@.len()
                == seg_fill(self.len as int, b) by {
                if b < b0 {
                    lemma_chunk_start_monotonic(START_SIZE as int, b + 1, b0);
                    lemma_chunk_step(START_SIZE as int, b);
                } else if b > b0 {
                    lemma_chunk_start_monotonic(START_SIZE as int, b0 + 1, b);
                    lemma_chunk_step(START_SIZE as int, b0);
                }
            }
            assert(self.wf());
            assert forall|i: int| 0 <= i < self.len as int implies self@[i] == old(self)@.push(v)[i]
                by {
                lemma_index_in_blocks(self.len as int, nb, i);
                let bi = seg_block_of(i);
                if i < len0 {
                    lemma_index_in_blocks(len0, old(self).spec_blocks(), i);
                    if bi != b0 {
                        assert(self.blocks@[bi] == old(self).blocks@[bi]);
                    }
                } else {
                    lemma_chunk_of_is(START_SIZE as int, i, b0);
                }
            }
            assert(self@ =~= old(self)@.push(v));
        }
    }

    /// Removes every element and resets the length to zero.  Every
    /// initialized slot is dropped; the allocated blocks themselves are
    /// kept, so the capacity is unchanged and future pushes reuse them.
    pub fn clear(&mut self)
        requires
            old(self).wf(),
        ensures
            final(self).wf(),
            final(self)@ == Seq::<T>::empty(),
            final(self).spec_blocks() == old(self).spec_blocks(),
    {
        let mut b: usize = 0;
        while b < self.blocks.len()
            invariant
                b <= self.blocks@.len(),
                self.blocks@.len() == old(self).blocks@.len(),
                self.len == old(self).len,
                forall|k: int| 0 <= k < b ==> (#[trigger] self.blocks@[k])@.len() == 0,
            decreases self.blocks@.len() - b,
        {
            self.blocks[b].clear();
            b = b + 1;
        }
        self.len = 0;
        proof {
            assert forall|k: int| 0 <= k < self.blocks@.len() implies (
            #[trigger] self.blocks@[k])@.len() == seg_fill(0, k) by {
                lemma_chunk_start_monotonic(START_SIZE as int, 0, k);
            }
            lemma_chunk_start_monotonic(START_SIZE as int, 0, self.blocks@.len() as int);
            assert(self@ =~= Seq::<T>::empty());
        }
    }

    /// Consumes the list, draining every element block by block in
    /// increasing index order into one contiguous vector.  The result
    /// holds exactly the list's elements in push order; the list itself is
    /// gone afterwards.
    pub fn to_vec(self) -> (r: Vec<T>)
        requires
            self.wf(),
        ensures
            r@ == self@,
    {
        let mut this = self;
        let ghost s0 = this;
        let mut result: Vec<T> = Vec::with_capacity(this.len);
        let mut b: usize = 0;
        proof {
            lemma_seg_bounds();
            assert(result@ =~= s0@.subrange(0, seg_up_to(s0.len as int, 0)));
        }
        while b < this.blocks.len()
            invariant
                b <= this.blocks@.len(),
                this.blocks@.len() == s0.blocks@.len(),
                s0.wf(),
                forall|k: int|
                    b <= k < s0.blocks@.len() ==> #[trigger] this.blocks@[k] == s0.blocks@[k],
                result@ == s0@.subrange(0, seg_up_to(s0.len as int, b as int)),
            decreases this.blocks@.len() - b,
        {
            proof {
                lemma_block_is_segment(s0, b as int);
                lemma_chunk_start_monotonic(START_SIZE as int, 0, b as int);
                lemma_chunk_start_monotonic(START_SIZE as int, b as int, b as int);
                lemma_chunk_step(START_SIZE as int, b as int);
                assert(s0@.subrange(0, seg_up_to(s0.len as int, b as int)) + s0@.subrange(
                    seg_up_to(s0.len as int, b as int),
                    seg_up_to(s0.len as int, b as int + 1),
                ) =~= s0@.subrange(0, seg_up_to(s0.len as int, b as int + 1)));
            }
            result.append(&mut this.blocks[b]);
            b = b + 1;
        }
        proof {
            assert(s0@.subrange(0, s0@.len() as int) =~= s0@);
        }
        result
    }

    /// Appends every element of `items`, in order, by repeated `push`.
    pub fn extend(&mut self, items: Vec<T>)
        requires
            old(self).wf(),
            old(self)@.len() + items@.len() <= MAX_LEN,
        ensures
            final(self).wf(),
            final(self)@ == old(self)@ + items@,
    {
        let ghost items0 = items@;
        let mut rest = items;
        let mut tmp: Vec<T> = Vec::new();
        while rest.len() > 0
            invariant
                rest@ == items0.subrange(0, rest@.len() as int),
                tmp@.len() + rest@.len() == items0.len(),
                forall|j: int|
                    0 <= j < tmp@.len() ==> #[trigger] tmp@[j] == items0[items0.len() - 1 - j],
            decreases rest@.len(),
        {
            let x = rest.pop().unwrap();
            tmp.push(x);
        }
        while tmp.len() > 0
            invariant
                self.wf(),
                tmp@.len() <= items0.len(),
                self@.len() + tmp@.len() <= MAX_LEN,
                self@ == old(self)@ + items0.subrange(0, items0.len() - tmp@.len()),
                forall|j: int|
                    0 <= j < tmp@.len() ==> #[trigger] tmp@[j] == items0[items0.len() - 1 - j],
            decreases tmp@.len(),
        {
            let x = tmp.pop().unwrap();
            self.push(x);
            proof {
                assert(self@ =~= old(self)@ + items0.subrange(
                    0,
                    items0.len() - tmp@.len(),
                ));
            }
        }
        proof {
            assert(items0.subrange(0, items0.len() as int) =~= items0);
        }
    }

    /// Builds a list holding the elements of `items` in order.
    pub fn from_vec(items: Vec<T>) -> (r: Self)
        requires
            items@.len() <= MAX_LEN,
        ensures
            r.wf(),
            r@ == items@,
    {
        let mut r = Self::new();
        r.extend(items);
        proof {
            assert(Seq::<T>::empty() + items@ =~= items@);
        }
        r
    }
}

/// Well-formed lists start out as `new` makes them.
impl<T> Default for SegmentedList<T> {
    fn default() -> (r: Self)
        ensures
            r.wf(),
            r@ == Seq::<T>::empty(),
    {
        Self::new()
    }
}

/// A deep copy: every initialized element is copied into freshly allocated
/// blocks, so the clone shares no storage with the original.
impl<T: Copy> Clone for SegmentedList<T> {
    fn clone(&self) -> (r: Self)
        ensures
            self.wf() ==> r.wf() && r@ == self@ && r.spec_blocks() == self.spec_blocks(),
    {
        let mut blocks: Vec<Vec<T>> = Vec::new();
        let mut b: usize = 0;
        while b < self.blocks.len()
            invariant
                blocks@.len() == b <= self.blocks@.len(),
                forall|k: int| 0 <= k < b ==> (#[trigger] blocks@[k])@ == self.blocks@[k]@,
            decreases self.blocks@.len() - b,
        {
            let src = &self.blocks[b];
            let mut inner: Vec<T> = Vec::with_capacity(src.len());
            let mut o: usize = 0;
            while o < src.len()
                invariant
                    o <= src@.len(),
                    inner@ == src@.subrange(0, o as int),
                decreases src@.len() - o,
            {
                inner.push(src[o]);
                proof {
                    assert(inner@ =~= src@.subrange(0, o as int + 1));
                }
                o = o + 1;
            }
            proof {
                assert(inner@ =~= src@);
            }
            blocks.push(inner);
            b = b + 1;
        }
        let r = SegmentedList { blocks, len: self.len };
        proof {
            if self.wf() {
                assert forall|i: int| 0 <= i < r.len as int implies r@[i] == self@[i] by {
                    lemma_index_in_blocks(self.len as int, self.blocks@.len() as int, i);
                }
                assert(r@ =~= self@);
            }
        }
        r
    }
}

/// The index mapping reconstructs every logical index from its own output:
/// the block's start plus the offset is the index again, and the offset
/// lies inside the block's capacity.
pub proof fn lemma_seg_mapping_reconstructs(idx: int)
    requires
        0 <= idx,
    ensures
        0 <= seg_block_of(idx),
        0 <= idx - seg_start(seg_block_of(idx)) < seg_cap(seg_block_of(idx)),
        seg_start(seg_block_of(idx)) + (idx - seg_start(seg_block_of(idx))) == idx,
{
    lemma_chunk_of_range(START_SIZE as int, idx);
    lemma_chunk_step(START_SIZE as int, chunk_of(START_SIZE as int, idx));
}

/// The index mapping is a bijection: every pair of a block and an offset
/// within its capacity is the image of exactly one logical index, namely
/// the block's start plus the offset.
pub proof fn lemma_seg_mapping_bijective(b: int, off: int)
    requires
        0 <= b,
        0 <= off < seg_cap(b),
    ensures
        seg_block_of(seg_start(b) + off) == b,
        (seg_start(b) + off) - seg_start(seg_block_of(seg_start(b) + off)) == off,
{
    lemma_chunk_step(START_SIZE as int, b);
    lemma_chunk_start_monotonic(START_SIZE as int, 0, b);
    lemma_chunk_of_is(START_SIZE as int, seg_start(b) + off, b);
}

/// An index exactly on a block boundary maps to offset 0 of the new
/// block, never to a trailing offset of the block before it; index 0 in
/// particular maps to the very start of block 0.
pub proof fn lemma_boundary_starts_new_block(k: int)
    requires
        0 <= k,
    ensures
        seg_block_of(seg_start(k)) == k,
        seg_start(k) - seg_start(seg_block_of(seg_start(k))) == 0,
{
    lemma_chunk_start_monotonic(START_SIZE as int, k, k);
    lemma_seg_mapping_bijective(k, 0);
}

/// Block `k` holds `START_SIZE * 2^k` elements, and the blocks before it
/// hold `START_SIZE * (2^k - 1)` elements in total — summing the doubling
/// capacities one block at a time gives exactly the closed form.
pub proof fn lemma_seg_capacities(k: int)
    requires
        0 <= k,
    ensures
        seg_cap(k) == START_SIZE * pow2(k as nat),
        seg_start(k) == START_SIZE * (pow2(k as nat) - 1),
        chunk_cap_sum(START_SIZE as int, k) == seg_start(k),
{
    lemma_chunk_cap_sum(START_SIZE as int, k);
}

} // verus!
