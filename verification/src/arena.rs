//! The bump-allocation arena.
//!
//! `SegmentedAlloc` plans allocations out of a chain of doubling blocks:
//! block `i` holds `MIN_SIZE * 2^i` bytes.  A request is served by aligning
//! the cursor of the active block and bumping it past the request; when the
//! aligned request would not fit, a new block of twice the active capacity
//! is mapped and the request is served from its very start.  Nothing is
//! ever carved out of an exhausted block again, no allocation is reused,
//! and disposal releases every block at once.
//!
//! The arena itself is pure bookkeeping over block indices and byte
//! offsets.  The operating-system page mapping that realises a block is an
//! external collaborator: whoever drives the arena maps one page region
//! per block that the arena decides to add, and turns a served
//! `(block, offset)` pair into a concrete address by adding the block's
//! base.  Distinct mappings never overlap, so the arena's model lays its
//! blocks end to end: the model address of block `i` is the summed
//! capacity of all blocks before it.

use vstd::prelude::*;
use crate::growth::{
    chunk_cap, chunk_start, chunk_fitting, lemma_chunk_step, lemma_chunk_start_monotonic,
    lemma_chunk_cap_monotonic, lemma_chunk_fitting, lemma_chunk_cap_sum, chunk_cap_sum,
};
use vstd::arithmetic::div_mod::{lemma_fundamental_div_mod, lemma_mod_multiples_basic};
use vstd::arithmetic::power2::lemma2_to64;

verus! {

/// Byte capacity of the first block.
pub const MIN_SIZE: usize = 4096;

/// Hard ceiling on how many blocks the arena may map.
pub const MAX_BLOCKS: usize = 55;

/// Each new block is this many times the size of the previous one.
pub const GROWTH: usize = 2;

/// Byte capacity of block `i`: `MIN_SIZE * 2^i`.
pub open spec fn arena_cap(i: int) -> int {
    chunk_cap(MIN_SIZE as int, i)
}

/// Model base address of block `i`: the summed capacity of all blocks
/// before it, as if the blocks were mapped end to end.
pub open spec fn arena_base(i: int) -> int {
    chunk_start(MIN_SIZE as int, i)
}

/// The cursor `val` rounded up to the next multiple of `align`.
pub open spec fn align_up_s(val: int, align: int) -> int {
    if val % align == 0 {
        val
    } else {
        val + align - (val % align)
    }
}

/// One allocation the arena has handed out: which block it lives in, at
/// which byte offset, how many bytes it spans, and the alignment it was
/// requested with.
pub ghost struct AllocSpan {
    pub block: int,
    pub offset: int,
    pub size: int,
    pub align: int,
}

impl AllocSpan {
    /// Model address of the allocation: its block's base plus its offset.
    pub open spec fn addr(self) -> int {
        arena_base(self.block) + self.offset
    }

    /// The allocation is aligned and lies inside its block.
    pub open spec fn ok(self) -> bool {
        &&& 0 <= self.block
        &&& 1 <= self.size
        &&& 1 <= self.align
        &&& 0 <= self.offset
        &&& self.offset % self.align == 0
        &&& self.offset + self.size <= arena_cap(self.block)
    }

    /// `other` was carved out strictly after `self`: either from a later
    /// block, or further along the same block.
    pub open spec fn before(self, other: AllocSpan) -> bool {
        self.block < other.block || (self.block == other.block && self.offset + self.size
            <= other.offset)
    }
}

/// The bump allocator.  It records the sizes of the blocks mapped so far
/// — always the doubling sequence `MIN_SIZE, 2 * MIN_SIZE, ...` — and the
/// cursor of the active (last) block; every allocation it has handed out
/// is kept in a ghost history that the contracts speak about.
pub struct SegmentedAlloc {
    block_sizes: Vec<usize>,
    pos: usize,
    allocs: Ghost<Seq<AllocSpan>>,
}

impl SegmentedAlloc {
    /// Number of blocks mapped so far.
    pub closed spec fn mapped(&self) -> int {
        self.block_sizes@.len() as int
    }

    /// Bytes of the active block already handed out (or skipped for
    /// alignment).
    pub closed spec fn cursor(&self) -> int {
        self.pos as int
    }

    /// The recorded size of block `i`.
    pub closed spec fn spec_block_size(&self, i: int) -> int {
        self.block_sizes@[i] as int
    }

    /// Every allocation handed out so far, oldest first.
    pub closed spec fn allocations(&self) -> Seq<AllocSpan> {
        self.allocs@
    }

    /// Structural invariant: the mapped blocks form the doubling sequence,
    /// the cursor stays inside the active block, and the allocation
    /// history is ordered, in-bounds, and ends below the cursor.
    pub closed spec fn wf(&self) -> bool {
        &&& self.mapped() <= MAX_BLOCKS as int
        &&& forall|i: int| 0 <= i < self.mapped() ==> self.spec_block_size(i) == arena_cap(i)
        &&& self.mapped() == 0 ==> self.cursor() == 0 && self.allocations().len() == 0
        &&& self.mapped() > 0 ==> self.cursor() <= arena_cap(self.mapped() - 1)
        &&& forall|k: int|
            0 <= k < self.allocations().len() ==> (#[trigger] self.allocations()[k]).ok()
                && self.allocations()[k].block < self.mapped()
        &&& forall|k: int|
            0 <= k < self.allocations().len() && (#[trigger] self.allocations()[k]).block
                == self.mapped() - 1 ==> self.allocations()[k].offset
                + self.allocations()[k].size <= self.cursor()
        &&& forall|k1: int, k2: int|
            0 <= k1 < k2 < self.allocations().len() ==> (#[trigger] self.allocations()[k1]).before(
                #[trigger] self.allocations()[k2],
            )
    }

    /// Whether the active block can serve the request without growing.
    pub open spec fn fits_active(&self, size: int, align: int) -> bool {
        self.mapped() > 0 && align_up_s(self.cursor(), align) + size <= arena_cap(
            self.mapped() - 1,
        )
    }

    /// The block the request will be served from: the active block when
    /// the aligned request fits it, else the first later block large
    /// enough to hold the request outright.
    pub open spec fn target_block(&self, size: int, align: int) -> int {
        if self.fits_active(size, align) {
            self.mapped() - 1
        } else {
            let f = chunk_fitting(MIN_SIZE as int, size);
            if f >= self.mapped() {
                f
            } else {
                self.mapped()
            }
        }
    }

    /// A request is serviceable when the block it ends up in exists below
    /// the block ceiling and its capacity is still a machine-representable
    /// byte count.
    pub open spec fn can_request(&self, size: int, align: int) -> bool {
        &&& 1 <= size
        &&& 1 <= align
        &&& self.cursor() + align <= usize::MAX as int
        &&& self.target_block(size, align) < MAX_BLOCKS as int
        &&& arena_cap(self.target_block(size, align)) <= usize::MAX as int
    }

    /// A fresh arena: no block is mapped until the first request arrives.
    pub fn new() -> (r: Self)
        ensures
            r.wf(),
            r.mapped() == 0,
            r.cursor() == 0,
            r.allocations() == Seq::<AllocSpan>::empty(),
    {
        SegmentedAlloc { block_sizes: Vec::new(), pos: 0, allocs: Ghost(Seq::empty()) }
    }

    /// Serves a request of `size` bytes at alignment `align` and says
    /// where the bytes live: the pair of the block index and the byte
    /// offset inside that block.
    ///
    /// The cursor of the active block is aligned up and bumped past the
    /// request.  When the aligned request does not fit the active block,
    /// blocks of doubling size are mapped — the first request maps the
    /// initial `MIN_SIZE` block — until one holds the request outright,
    /// and the request is served from offset 0 of that final block: an
    /// allocation is never split across a block boundary, and the unused
    /// tail of an abandoned block is never carved again.
    pub fn request(&mut self, size: usize, align: usize) -> (r: (usize, usize))
        requires
            old(self).wf(),
            old(self).can_request(size as int, align as int),
        ensures
            final(self).wf(),
            r.0 as int == old(self).target_block(size as int, align as int),
            r.1 as int % align as int == 0,
            r.1 + size <= arena_cap(r.0 as int),
            old(self).fits_active(size as int, align as int) ==> r.1 as int == align_up_s(
                old(self).cursor(),
                align as int,
            ) && final(self).mapped() == old(self).mapped(),
            !old(self).fits_active(size as int, align as int) ==> r.1 == 0
                && final(self).mapped() == r.0 as int + 1 && r.0 as int >= old(self).mapped(),
            final(self).mapped() >= old(self).mapped(),
            final(self).cursor() == r.1 + size,
            final(self).allocations() == old(self).allocations().push(
                AllocSpan {
                    block: r.0 as int,
                    offset: r.1 as int,
                    size: size as int,
                    align: align as int,
                },
            ),
    {
        proof {
            lemma_chunk_fitting(MIN_SIZE as int, size as int);
            lemma2_to64();
        }
        if self.block_sizes.len() == 0 {
            self.block_sizes.push(MIN_SIZE);
        }
        let ghost t = old(self).target_block(size as int, align as int);
        let ghost m0 = if old(self).mapped() == 0 {
            1int
        } else {
            old(self).mapped()
        };
        loop
            invariant
                old(self).wf(),
                old(self).can_request(size as int, align as int),
                1 <= self.mapped() <= t + 1,
                forall|i: int|
                    0 <= i < self.mapped() ==> #[trigger] self.spec_block_size(i) == arena_cap(i),
                self.allocs@ == old(self).allocs@,
                (self.mapped() == m0 && self.cursor() == old(self).cursor()) || (self.cursor() == 0
                    && m0 < self.mapped()),
                t == old(self).target_block(size as int, align as int),
                m0 == if old(self).mapped() == 0 {
                    1int
                } else {
                    old(self).mapped()
                },
            decreases t + 1 - self.mapped(),
        {
            let last: usize = self.block_sizes.len() - 1;
            let cap: usize = self.block_sizes[last];
            proof {
                lemma_chunk_fitting(MIN_SIZE as int, size as int);
                lemma2_to64();
                assert(cap as int == self.spec_block_size(last as int));
                assert(cap as int == arena_cap(last as int));
                if self.mapped() == m0 {
                    // first try: the cursor is the caller's cursor
                    if old(self).mapped() > 0 {
                        assert(self.cursor() <= arena_cap(self.mapped() - 1));
                    }
                }
                assert(self.cursor() + align as int <= usize::MAX as int);
                vstd::arithmetic::div_mod::lemma_small_mod(0, align as nat);
            }
            let offset: usize = align_up(self.pos, align);
            if offset > cap || size > cap - offset {
                // the aligned request overflows the active block: map the
                // next block, twice as large, and retry there
                proof {
                    let f = chunk_fitting(MIN_SIZE as int, size as int);
                    if self.mapped() == m0 {
                        if old(self).mapped() > 0 {
                            assert(!old(self).fits_active(size as int, align as int));
                        } else {
                            assert(offset == 0);
                            if f == 0 {
                                assert(size as int <= arena_cap(0));
                                assert(false);
                            }
                        }
                    } else {
                        assert(offset == 0);
                        if f <= self.mapped() - 1 {
                            lemma_chunk_cap_monotonic(MIN_SIZE as int, f, self.mapped() - 1);
                            assert(false);
                        }
                    }
                    assert(self.mapped() <= t);
                    // the next block exists below the target, so its
                    // doubled size is still a representable byte count
                    lemma_chunk_step(MIN_SIZE as int, self.mapped() - 1);
                    lemma_chunk_cap_monotonic(MIN_SIZE as int, self.mapped(), t);
                }
                let ghost pre_self = *self;
                let new_size: usize = cap * GROWTH;
                self.block_sizes.push(new_size);
                self.pos = 0;
                proof {
                    assert forall|i: int|
                        0 <= i < self.mapped() implies #[trigger] self.spec_block_size(i)
                        == arena_cap(i) by {
                        if i < self.mapped() - 1 {
                            assert(self.spec_block_size(i) == pre_self.spec_block_size(i));
                        } else {
                            assert(self.spec_block_size(i) == new_size as int);
                        }
                    }
                }
            } else {
                // the request fits: bump the cursor and hand the span out
                let ghost pre_self = *self;
                self.pos = offset + size;
                let ghost span = AllocSpan {
                    block: last as int,
                    offset: offset as int,
                    size: size as int,
                    align: align as int,
                };
                proof {
                    self.allocs@ = self.allocs@.push(span);
                    let f = chunk_fitting(MIN_SIZE as int, size as int);
                    // the served block is exactly the target
                    if self.mapped() == m0 {
                        if old(self).mapped() > 0 {
                            assert(old(self).fits_active(size as int, align as int));
                            assert(last as int == t);
                        } else {
                            assert(offset == 0);
                            assert(size as int <= arena_cap(0));
                            assert(f == 0);
                            assert(last as int == 0 && t == 0);
                        }
                    } else {
                        assert(offset == 0);
                        if (last as int) < f {
                            lemma_chunk_cap_monotonic(MIN_SIZE as int, last as int, f - 1);
                            assert(false);
                        }
                        assert(last as int == t);
                    }
                    // the mapped sizes are untouched by serving
                    assert forall|i: int|
                        0 <= i < self.mapped() implies #[trigger] self.spec_block_size(i)
                        == arena_cap(i) by {
                        assert(self.spec_block_size(i) == pre_self.spec_block_size(i));
                    }
                    // the new history stays in bounds ...
                    assert forall|k: int|
                        0 <= k < self.allocs@.len() implies (#[trigger] self.allocs@[k]).ok()
                            && self.allocs@[k].block < self.mapped() by {
                        if k < self.allocs@.len() - 1 {
                            assert(old(self).allocations()[k].ok());
                            assert(old(self).allocations()[k].block < old(self).mapped());
                        }
                    }
                    // ... ends below the new cursor ...
                    assert forall|k: int|
                        0 <= k < self.allocs@.len() && (#[trigger] self.allocs@[k]).block
                            == self.mapped() - 1 implies self.allocs@[k].offset
                        + self.allocs@[k].size <= self.cursor() by {
                        if k < self.allocs@.len() - 1 {
                            assert(old(self).allocations()[k].ok());
                            assert(old(self).allocations()[k].block < old(self).mapped());
                            if old(self).allocations()[k].block == old(self).mapped() - 1 {
                                assert(old(self).allocations()[k].offset + old(
                                    self,
                                ).allocations()[k].size <= old(self).cursor());
                            }
                        }
                    }
                    // ... and stays ordered: every older allocation ends
                    // before the one just served begins
                    assert forall|k1: int, k2: int|
                        0 <= k1 < k2 < self.allocs@.len() implies (
                    #[trigger] self.allocs@[k1]).before(#[trigger] self.allocs@[k2]) by {
                        if k2 == self.allocs@.len() - 1 {
                            assert(old(self).allocations()[k1].ok());
                            assert(old(self).allocations()[k1].block < old(self).mapped());
                            if old(self).allocations()[k1].block == old(self).mapped() - 1 {
                                assert(old(self).allocations()[k1].offset + old(
                                    self,
                                ).allocations()[k1].size <= old(self).cursor());
                            }
                        } else {
                            assert(old(self).allocations()[k1].before(
                                old(self).allocations()[k2],
                            ));
                        }
                    }
                    assert(self.wf());
                }
                return (last, offset);
            }
        }
    }

    /// Like [`Self::request`], but total: instead of demanding a
    /// serviceable request up front, it says in its result whether the
    /// request was serviceable.  Nothing is handed out — and the arena is
    /// untouched — exactly when the request is empty, its alignment
    /// arithmetic would overflow, or the block it needs lies past the
    /// block ceiling or past what a machine word can size.
    pub fn try_request(&mut self, size: usize, align: usize) -> (r: Option<(usize, usize)>)
        requires
            old(self).wf(),
        ensures
            final(self).wf(),
            (r is Some) <==> old(self).can_request(size as int, align as int),
            r is None ==> *final(self) == *old(self),
            r matches Some(p) ==> {
                &&& p.0 as int == old(self).target_block(size as int, align as int)
                &&& p.1 as int % align as int == 0
                &&& p.1 + size <= arena_cap(p.0 as int)
                &&& (old(self).fits_active(size as int, align as int) ==> p.1 as int == align_up_s(
                    old(self).cursor(),
                    align as int,
                ) && final(self).mapped() == old(self).mapped())
                &&& (!old(self).fits_active(size as int, align as int) ==> p.1 == 0
                    && final(self).mapped() == p.0 as int + 1)
                &&& final(self).cursor() == p.1 + size
                &&& final(self).allocations() == old(self).allocations().push(
                    AllocSpan {
                        block: p.0 as int,
                        offset: p.1 as int,
                        size: size as int,
                        align: align as int,
                    },
                )
            },
    {
        if size == 0 || align == 0 {
            return None;
        }
        if align > usize::MAX - self.pos {
            return None;
        }
        let mapped = self.block_sizes.len();
        if mapped > 0 {
            let cap: usize = self.block_sizes[mapped - 1];
            proof {
                assert(cap as int == self.spec_block_size(self.mapped() - 1));
            }
            let offset: usize = align_up(self.pos, align);
            if offset <= cap && size <= cap - offset {
                // the active block serves it: the target is the active
                // block, whose size is a machine word by construction
                let p = self.request(size, align);
                return Some(p);
            }
        }
        // growth is needed; find the smallest block that holds the request
        let fit = fitting_block(size);
        proof {
            lemma_chunk_fitting(MIN_SIZE as int, size as int);
        }
        match fit {
            None => {
                // even the smallest block holding the request is not a
                // machine-representable byte count
                proof {
                    let f = chunk_fitting(MIN_SIZE as int, size as int);
                    let t = self.target_block(size as int, align as int);
                    lemma_chunk_cap_monotonic(MIN_SIZE as int, f, t);
                }
                None
            },
            Some((f, cap_f)) => {
                if f >= mapped {
                    if f >= MAX_BLOCKS {
                        return None;
                    }
                    let p = self.request(size, align);
                    Some(p)
                } else {
                    // the target is the block right after the active one
                    let cap_last: usize = self.block_sizes[mapped - 1];
                    proof {
                        assert(cap_last as int == self.spec_block_size(self.mapped() - 1));
                        lemma_chunk_step(MIN_SIZE as int, self.mapped() - 1);
                    }
                    if cap_last > usize::MAX / 2 {
                        return None;
                    }
                    if mapped >= MAX_BLOCKS {
                        return None;
                    }
                    proof {
                        lemma_chunk_cap_monotonic(
                            MIN_SIZE as int,
                            chunk_fitting(MIN_SIZE as int, size as int),
                            self.mapped(),
                        );
                    }
                    let p = self.request(size, align);
                    Some(p)
                }
            },
        }
    }

    /// Releases the whole arena at once: every mapped block is given up in
    /// one pass, and with the blocks goes the allocation history.  There is
    /// no per-allocation release — the arena only ever lets go of
    /// everything together.
    pub fn free(&mut self)
        ensures
            final(self).wf(),
            final(self).mapped() == 0,
            final(self).cursor() == 0,
            final(self).allocations() == Seq::<AllocSpan>::empty(),
    {
        self.block_sizes = Vec::new();
        self.pos = 0;
        self.allocs = Ghost(Seq::empty());
    }

    /// Number of blocks mapped so far.
    pub fn mapped_blocks(&self) -> (r: usize)
        ensures
            r as int == self.mapped(),
    {
        self.block_sizes.len()
    }

    /// Byte size of mapped block `i`.
    pub fn block_size(&self, i: usize) -> (r: usize)
        requires
            self.wf(),
            (i as int) < self.mapped(),
        ensures
            r as int == self.spec_block_size(i as int),
            r as int == arena_cap(i as int),
    {
        self.block_sizes[i]
    }

    /// Bytes of the active block already consumed.
    pub fn position(&self) -> (r: usize)
        ensures
            r as int == self.cursor(),
    {
        self.pos
    }
}

/// Allocations never overlap.  In the model address space — block `i`
/// begins where block `i - 1` ends — every allocation the arena has handed
/// out ends at or before every later one begins, so any two span disjoint
/// byte ranges.
pub proof fn lemma_allocations_disjoint(a: SegmentedAlloc, i: int, j: int)
    requires
        a.wf(),
        0 <= i < j < a.allocations().len(),
    ensures
        a.allocations()[i].addr() + a.allocations()[i].size <= a.allocations()[j].addr(),
{
    let x = a.allocations()[i];
    let y = a.allocations()[j];
    assert(x.ok());
    assert(y.ok());
    assert(x.before(y));
    if x.block < y.block {
        lemma_chunk_step(MIN_SIZE as int, x.block);
        lemma_chunk_start_monotonic(MIN_SIZE as int, x.block + 1, y.block);
    }
}

/// Every allocation respects the alignment it was requested with and lies
/// entirely inside the block it was served from.
pub proof fn lemma_allocation_aligned(a: SegmentedAlloc, i: int)
    requires
        a.wf(),
        0 <= i < a.allocations().len(),
    ensures
        a.allocations()[i].offset % a.allocations()[i].align == 0,
        0 <= a.allocations()[i].offset,
        a.allocations()[i].offset + a.allocations()[i].size <= arena_cap(a.allocations()[i].block),
{
    assert(a.allocations()[i].ok());
}

/// The mapped blocks are exactly the doubling sequence: the first block is
/// `MIN_SIZE` bytes and each further block is twice the one before it.
pub proof fn lemma_blocks_double(a: SegmentedAlloc, i: int)
    requires
        a.wf(),
        0 <= i < a.mapped(),
    ensures
        i == 0 ==> a.spec_block_size(0) == MIN_SIZE as int,
        i > 0 ==> a.spec_block_size(i) == 2 * a.spec_block_size(i - 1),
{
    lemma2_to64();
    assert(a.spec_block_size(i) == arena_cap(i));
    if i > 0 {
        lemma_chunk_step(MIN_SIZE as int, i - 1);
        assert(a.spec_block_size(i - 1) == arena_cap(i - 1));
    }
}

/// The model base address of a block is the summed byte capacity of every
/// block before it.
pub proof fn lemma_arena_base_is_cap_sum(k: int)
    requires
        0 <= k,
    ensures
        arena_base(k) == chunk_cap_sum(MIN_SIZE as int, k),
{
    lemma_chunk_cap_sum(MIN_SIZE as int, k);
}

/// The smallest block index whose capacity holds `size` bytes, together
/// with that capacity — or nothing when no block of machine-representable
/// size can hold the request.
fn fitting_block(size: usize) -> (r: Option<(usize, usize)>)
    requires
        1 <= size,
    ensures
        r matches Some(p) ==> p.0 as int == chunk_fitting(MIN_SIZE as int, size as int)
            && p.1 as int == arena_cap(p.0 as int) && size <= p.1,
        r is None ==> arena_cap(chunk_fitting(MIN_SIZE as int, size as int)) > usize::MAX as int,
{
    let mut cap: usize = MIN_SIZE;
    let mut f: usize = 0;
    proof {
        lemma2_to64();
    }
    while cap < size
        invariant
            1 <= size,
            cap as int == arena_cap(f as int),
            f <= 64,
            f > 0 ==> arena_cap(f as int - 1) < size as int,
        decreases 64 - f,
    {
        proof {
            lemma_chunk_step(MIN_SIZE as int, f as int);
            lemma_chunk_fitting(MIN_SIZE as int, size as int);
            lemma2_to64();
            if f >= 64 {
                lemma_chunk_cap_monotonic(MIN_SIZE as int, 64, f as int);
                assert(false);
            }
        }
        if cap > usize::MAX / 2 {
            proof {
                // the fitting block is past this one, and doubling this
                // capacity already leaves the machine's range
                let cf = chunk_fitting(MIN_SIZE as int, size as int);
                if cf <= f as int {
                    lemma_chunk_cap_monotonic(MIN_SIZE as int, cf, f as int);
                    assert(false);
                }
                lemma_chunk_cap_monotonic(MIN_SIZE as int, f as int + 1, cf);
            }
            return None;
        }
        cap = cap * 2;
        f = f + 1;
    }
    proof {
        lemma_chunk_fitting(MIN_SIZE as int, size as int);
        let cf = chunk_fitting(MIN_SIZE as int, size as int);
        if cf < f as int {
            lemma_chunk_cap_monotonic(MIN_SIZE as int, cf, f as int - 1);
            assert(false);
        }
        if cf > f as int {
            lemma_chunk_cap_monotonic(MIN_SIZE as int, f as int, cf - 1);
            assert(false);
        }
    }
    Some((f, cap))
}

/// `val` rounded up to the next multiple of `align`.
fn align_up(val: usize, align: usize) -> (r: usize)
    requires
        1 <= align,
        val + align <= usize::MAX,
    ensures
        r as int == align_up_s(val as int, align as int),
        r % align == 0,
        val % align == 0 ==> r == val,
        val <= r,
        (r as int) < val + align,
{
    let rem = val % align;
    proof {
        lemma_fundamental_div_mod(val as int, align as int);
        if rem != 0 {
            lemma_mod_multiples_basic(val as int / align as int + 1, align as int);
            assert((val as int / align as int + 1) * (align as int) == (align as int) * (val as int
                / align as int) + align as int) by (nonlinear_arith);
        }
    }
    if rem == 0 {
        val
    } else {
        let r = val + (align - rem);
        proof {
            let q = val as int / align as int;
            assert(r as int == (q + 1) * (align as int));
            assert(((q + 1) * (align as int)) % (align as int) == 0);
            assert(r as int % align as int == 0);
        }
        r
    }
}

} // verus!
