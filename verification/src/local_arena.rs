//! A thread-local arena: a chain of chunks, the current one first, fed by a
//! shared pool.
use vstd::prelude::*;
use vstd::arithmetic::power2::is_pow2;
use crate::layout::{Layout, lemma_pow2_positive, lemma_align};
use crate::chunk::{
    Chunk, ChunkState, fits, placed_at, fresh_chunk, chunk_total_size, slice_outcome, dst_outcome,
    remaining_outcome, remaining_after, after_placing, fill_result, lemma_placed_block, DANGLING, chunk_size_ok,
    aligned_bump,
};
use crate::dst::{DSTInfo, DstPlan, plan_dst, finish, dst_plan_spec, finish_outcome, dst_info_ok, ran, ran_as};
use crate::checkpoint::rollback_chain;
use crate::arena::{arranged, split_off};
use crate::pool::{SharedArena, states, all_wf, take_at, put_at, min_chunk_size_spec, max3, MINIMUM_ALLOCATED_SIZE};
use crate::boxed::{Box, Uninit};
use crate::{AllocError, AllocationInfo, BuilderDST, CancellationError, InsertingOrder, WriteElementState};
use core::ops::Range;

verus! {

/// Smallest power of two not below `n`, or `None` when it does not fit in a
/// `usize`.
pub fn checked_next_power_of_two(n: usize) -> (r: Option<usize>)
    ensures
        match r {
            Some(p) => is_pow2(p as int) && n <= p && (p == 1 || p / 2 < n),
            None => n > usize::MAX / 2 + 1,
        },
{
    let mut p: usize = 1;
    proof { reveal(is_pow2); }
    while p < n
        invariant
            is_pow2(p as int),
            p == 1 || p / 2 < n,
        decreases usize::MAX - p,
    {
        if p > usize::MAX / 2 {
            return None;
        }
        proof {
            reveal(is_pow2);
            assert((2 * p) % 2 == 0 && (2 * p) / 2 == p);
        }
        p = p * 2;
    }
    Some(p)
}

/// Sum of the bytes handed out by the chunks of `s`.
pub open spec fn sum_used(s: Seq<ChunkState>) -> int
    decreases s.len(),
{
    if s.len() == 0 {
        0
    } else {
        sum_used(s.drop_last()) + s.last().used()
    }
}

/// Sum of the storage lengths of the chunks of `s`.
pub open spec fn sum_len(s: Seq<ChunkState>) -> int
    decreases s.len(),
{
    if s.len() == 0 {
        0
    } else {
        sum_len(s.drop_last()) + s.last().len
    }
}

/// Sum of the whole sizes of the chunks of `s`, bookkeeping included.
pub open spec fn sum_total(s: Seq<ChunkState>) -> int
    decreases s.len(),
{
    if s.len() == 0 {
        0
    } else {
        sum_total(s.drop_last()) + chunk_total_size(s.last().len)
    }
}

/// `x`, or `usize::MAX` when it is larger.
pub open spec fn capped(x: int) -> int {
    if x > usize::MAX {
        usize::MAX as int
    } else {
        x
    }
}

/// A thread-local arena.
pub struct LocalArena {
    chain: Vec<Chunk>,
    sentinel: Chunk,
    shared: SharedArena,
}

impl LocalArena {
    /// States of the chunks, the current one first. Empty when the current
    /// chunk is the empty stand-in.
    pub closed spec fn chain(&self) -> Seq<ChunkState> {
        states(self.chain@)
    }

    /// State of the current chunk.
    pub closed spec fn frontier(&self) -> ChunkState {
        if self.chain@.len() == 0 {
            self.sentinel@
        } else {
            self.chain@[0]@
        }
    }

    pub closed spec fn wf(&self) -> bool {
        &&& all_wf(self.chain@)
        &&& self.sentinel.wf()
        &&& self.sentinel@ == fresh_chunk(0)
    }

    /// The current chunk is always a well-formed chunk; with no chunk in the
    /// chain, it is the empty stand-in.
    pub proof fn lemma_frontier(&self)
        requires
            self.wf(),
        ensures
            self.frontier().wf(),
            self.chain().len() == 0 ==> self.frontier() == fresh_chunk(0),
            self.chain().len() > 0 ==> self.frontier() == self.chain()[0],
            forall|i: int| 0 <= i < self.chain().len() ==> (#[trigger] self.chain()[i]).wf(),
    {
        if self.chain@.len() > 0 {
            assert(self.chain@[0].wf());
            assert(states(self.chain@)[0] == self.chain@[0]@);
        }
        assert forall|i: int| 0 <= i < self.chain().len() implies (#[trigger] self.chain()[i]).wf() by {
            assert(self.chain@[i].wf());
            assert(states(self.chain@)[i] == self.chain@[i]@);
        }
    }

    /// A local arena of `shared`, starting with no chunk.
    pub fn new(shared: SharedArena) -> (r: LocalArena)
        ensures
            r.shared_arena() == shared,
            r.wf(),
            r.chain().len() == 0,
            r.frontier() == fresh_chunk(0),
    {
        LocalArena { chain: Vec::new(), sentinel: Chunk::sentinel(), shared }
    }

    /// The shared arena this local arena belongs to.
    pub fn get_shared(&self) -> (r: SharedArena)
        ensures
            r == self.shared_arena(),
    {
        self.shared.clone()
    }

    /// The shared arena this arena takes its chunks from and gives them back
    /// to.
    pub closed spec fn shared_arena(&self) -> SharedArena {
        self.shared
    }

    /// Makes `c` the current chunk; the previous current chunk follows it.
    fn push_frontier(&mut self, c: Chunk)
        requires
            old(self).wf(),
            c.wf(),
        ensures
            final(self).wf(),
            final(self).chain() == seq![c@] + old(self).chain(),
            final(self).frontier() == c@,
    {
        put_at(&mut self.chain, 0, c);
        proof {
            assert(states(self.chain@) =~= seq![c@] + states(old(self).chain@));
            assert(self.chain@[0] == c);
        }
    }

    /// Number of bytes free in the current chunk.
    pub fn remaining_chunk_capacity(&self) -> (r: usize)
        requires
            self.wf(),
        ensures
            r == self.frontier().remaining(),
    {
        if self.chain.len() == 0 {
            self.sentinel.remaining()
        } else {
            proof { assert(self.chain@[0].wf()); }
            self.chain[0].remaining()
        }
    }

    /// Storage length of the current chunk.
    fn frontier_len(&self) -> (r: usize)
        requires
            self.wf(),
        ensures
            r == self.frontier().len,
    {
        if self.chain.len() == 0 {
            self.sentinel.storage_len()
        } else {
            self.chain[0].storage_len()
        }
    }

    /// Allocates a block of `layout`: in the current chunk when it fits,
    /// else in a chunk taken from the pool or made, which becomes current.
    /// `OutOfMemory` when no chunk could be had or the block does not fit in
    /// the one obtained; `InvalidLayout` when a new chunk for it would be too
    /// big.
    pub fn try_alloc_layout(&mut self, layout: Layout) -> (r: Result<Box<Uninit>, AllocError>)
        requires
            old(self).wf(),
        ensures
            final(self).wf(),
            layout_allocated(*old(self), *final(self), layout, r),
    {
        let ghost f = self.frontier();
        proof {
            self.lemma_frontier();
        }
        let size = layout.size();
        let align = layout.align();
        if self.chain.len() == 0 {
            let ok = self.sentinel.can_allocate(&layout);
            if ok {
                let a = match self.sentinel.try_alloc(&layout) {
                    Ok(a) => a,
                    Err(_) => {
                        proof { assert(false); }
                        return Err(AllocError::OutOfMemory);
                    },
                };
                proof {
                    lemma_placed_block(f, size as int, align as int);
                }
                return Ok(Box::from_parts(a, Uninit { len: size }));
            }
        } else {
            let mut c = take_at(&mut self.chain, 0);
            let ok = c.can_allocate(&layout);
            if ok {
                let a = match c.try_alloc(&layout) {
                    Ok(a) => a,
                    Err(_) => {
                        proof { assert(false); }
                        return Err(AllocError::OutOfMemory);
                    },
                };
                proof {
                    lemma_placed_block(f, size as int, align as int);
                }
                put_at(&mut self.chain, 0, c);
                proof {
                    assert(states(self.chain@) =~= states(old(self).chain@).update(0, f.with_bump(a as int)));
                    assert(self.chain@[0] == c);
                }
                return Ok(Box::from_parts(a, Uninit { len: size }));
            }
            put_at(&mut self.chain, 0, c);
            proof {
                assert(states(self.chain@) =~= states(old(self).chain@));
                assert(self.chain@ =~= old(self).chain@);
            }
        }
        self.try_grow_and_alloc(layout)
    }

    /// Gets a chunk for `layout` from the pool, or makes one twice as big as
    /// the current one (rounded to a power of two), makes it current and
    /// allocates there.
    fn try_grow_and_alloc(&mut self, layout: Layout) -> (r: Result<Box<Uninit>, AllocError>)
        requires
            old(self).wf(),
        ensures
            final(self).wf(),
            ({
                let size = layout.size_spec() as int;
                let align = layout.align_spec() as int;
                &&& r matches Ok(b) ==> b.content().len == size && (b.address() as int) % align == 0
                    && b.address() == final(self).frontier().bump && final(self).frontier().start
                    <= b.address() && b.address() + size <= final(self).frontier().end()
                &&& final(self).chain() == old(self).chain() && r is Err
                    || final(self).chain().len() == old(self).chain().len() + 1 && final(self).chain().skip(1)
                    == old(self).chain()
                &&& r == Err::<Box<Uninit>, AllocError>(AllocError::InvalidLayout) <==> !chunk_size_ok(
                    min_chunk_size_spec(size, align),
                )
            }),
    {
        let len = self.frontier_len();
        let size = match len.checked_add(1) {
            Some(n) => match checked_next_power_of_two(n) {
                Some(p) => p,
                None => len,
            },
            None => len,
        };
        let mut c = match self.shared.get_or_make_chunk(&layout, size) {
            Ok(c) => c,
            Err(e) => return Err(e),
        };
        let bsize = layout.size();
        let align = layout.align();
        proof { lemma_pow2_positive(align as int); }
        let ghost before = c@;
        proof {
            if fits(before, bsize as int, align as int) {
                crate::chunk::lemma_fits_size_ok(before, bsize as int, align as int);
            } else {
                crate::chunk::lemma_chunk_size_ok_smaller(min_chunk_size_spec(bsize as int, align as int), before.len);
            }
        }
        let placed = c.try_alloc(&layout);
        proof {
            if placed is Ok {
                lemma_placed_block(before, bsize as int, align as int);
            }
        }
        self.push_frontier(c);
        proof {
            assert(self.chain().skip(1) =~= old(self).chain());
        }
        match placed {
            Ok(a) => Ok(Box::from_parts(a, Uninit { len: bsize })),
            Err(e) => Err(e),
        }
    }

    /// Gives all chunks back to the shared pool, their storage freed; the
    /// arena is left with no chunk.
    pub fn reset(&mut self)
        requires
            old(self).wf(),
        ensures
            final(self).wf(),
            final(self).chain().len() == 0,
            final(self).frontier() == fresh_chunk(0),
    {
        let mut chain: Vec<Chunk> = Vec::new();
        core::mem::swap(&mut chain, &mut self.chain);
        if chain.len() > 0 {
            self.shared.store_chunks(chain);
        }
    }

    /// What [LocalArena::allocation_info] reports: bytes handed out, bytes
    /// of storage and bytes of chunks, summed over the chain; for the empty
    /// stand-in, only its bookkeeping counts. Sums beyond `usize::MAX` are
    /// capped there.
    pub open spec fn info_spec(&self) -> AllocationInfo {
        if self.chain().len() == 0 {
            AllocationInfo { user_bytes: 0, storage_bytes: 0, total_bytes: chunk_total_size(0) as usize }
        } else {
            AllocationInfo {
                user_bytes: capped(sum_used(self.chain())) as usize,
                storage_bytes: capped(sum_len(self.chain())) as usize,
                total_bytes: capped(sum_total(self.chain())) as usize,
            }
        }
    }

    /// Bytes handed out, bytes of storage and bytes of chunks, summed over
    /// the chain; for the empty stand-in, only its bookkeeping counts.
    /// Sums beyond `usize::MAX` are capped there.
    pub fn allocation_info(&self) -> (r: AllocationInfo)
        requires
            self.wf(),
        ensures
            r == self.info_spec(),
    {
        if self.chain.len() == 0 {
            let total = self.sentinel.total_size();
            return AllocationInfo { user_bytes: 0, storage_bytes: 0, total_bytes: total };
        }
        let mut info = AllocationInfo::zero();
        let mut i: usize = 0;
        while i < self.chain.len()
            invariant
                self.wf(),
                i <= self.chain@.len(),
                info.user_bytes == capped(sum_used(self.chain().take(i as int))),
                info.storage_bytes == capped(sum_len(self.chain().take(i as int))),
                info.total_bytes == capped(sum_total(self.chain().take(i as int))),
            decreases self.chain@.len() - i,
        {
            proof {
                self.lemma_frontier();
                let t = self.chain().take(i as int + 1);
                assert(t.drop_last() =~= self.chain().take(i as int));
                assert(t.last() == self.chain()[i as int]);
                assert(states(self.chain@)[i as int] == self.chain@[i as int]@);
                assert(self.chain@[i as int].wf());
                assert(sum_used(self.chain().take(i as int)) >= 0) by {
                    lemma_sums_nonneg(self.chain().take(i as int));
                }
                lemma_sums_nonneg(self.chain().take(i as int));
                crate::layout::lemma_align(24 + self.chain()[i as int].len, 8);
            }
            let c = &self.chain[i];
            info.user_bytes = info.user_bytes.saturating_add(c.used());
            info.storage_bytes = info.storage_bytes.saturating_add(c.storage_len());
            info.total_bytes = info.total_bytes.saturating_add(c.total_size());
            i = i + 1;
        }
        proof {
            assert(self.chain().take(self.chain().len() as int) =~= self.chain());
        }
        info
    }
}


/// What [LocalArena::try_alloc_layout] does, from `pre` to `post`, returning `r`.
pub open spec fn layout_allocated(pre: LocalArena, post: LocalArena, layout: Layout, r: Result<Box<Uninit>, AllocError>) -> bool {
    &&& ({
            let f = pre.frontier();
            let size = layout.size_spec() as int;
            let align = layout.align_spec() as int;
            &&& r matches Ok(b) ==> b.content().len == size && (b.address() as int) % align == 0
                && b.address() == post.frontier().bump && post.frontier().start <= b.address()
                && b.address() + size <= post.frontier().end()
            &&& r == Err::<Box<Uninit>, AllocError>(AllocError::InvalidLayout) <==> (!fits(f, size, align)
                && !chunk_size_ok(min_chunk_size_spec(size, align)))
            &&& fits(f, size, align) ==> {
                let a = placed_at(f, size, align);
                &&& r matches Ok(b) && b.address() == a && a + size <= f.bump
                &&& post.frontier() == f.with_bump(a)
                &&& post.chain() == (if pre.chain().len() == 0 {
                    pre.chain()
                } else {
                    pre.chain().update(0, f.with_bump(a))
                })
            }
            &&& !fits(f, size, align) ==> {
                ||| post.chain() == pre.chain() && r is Err
                ||| post.chain().len() == pre.chain().len() + 1
                    && post.chain().skip(1) == pre.chain()
            }
        })
}

/// What [LocalArena::try_alloc_remaining_slice_with_layout] does, from `pre` to `post`, returning `r`.
pub open spec fn slice_allocated(pre: LocalArena, post: LocalArena, element_layout: Layout, range_len: Range<usize>, r: Option<(Box<Uninit>, usize)>) -> bool {
    &&& ({
            let (lo, hi) = ordered(range_len);
            let es = element_layout.size_spec() as int;
            let ea = element_layout.align_spec() as int;
            let f = pre.frontier();
            if es == 0 {
                &&& r matches Some((b, n)) && b.address() == DANGLING && b.content().len == 0 && n == hi
                &&& post.chain() == pre.chain() && post.frontier() == f
            } else {
                match slice_outcome(f, es, ea, lo as int, hi as int) {
                    Some(out) => {
                        &&& r matches Some((b, n)) && b.address() == out.0 && b.content().len == out.1 && n == out.2
                        &&& frontier_replaced(pre, post, after_placing(f, Some(out)))
                    },
                    None => {
                        ||| r is None && post.chain() == pre.chain() && post.frontier() == f
                        ||| r matches Some((b, n)) && pushed(pre, post) && exists|s0: ChunkState|
                            s0.wf() && #[trigger] slice_outcome(s0, es, ea, lo as int, hi as int) == Some(
                            (b.address(), b.content().len, n),
                        ) && post.frontier() == after_placing(s0, Some((b.address(), b.content().len, n)))
                    },
                }
            }
        })
}

/// What [LocalArena::try_alloc_remaining_dst_with_layout] does, from `pre` to `post`, returning `r`.
pub open spec fn dst_allocated(pre: LocalArena, post: LocalArena, header_layout: Layout, element_layout: Layout, elements_len: Range<usize>, r: Option<(Box<Uninit>, usize)>) -> bool {
    &&& ({
            let (lo, hi) = ordered(elements_len);
            let hs = header_layout.size_spec();
            let ha = header_layout.align_spec();
            let es = element_layout.size_spec();
            let ea = element_layout.align_spec();
            let f = pre.frontier();
            match dst_outcome(f, hs, ha, es, ea, lo as int, hi as int) {
                Some(out) => {
                    &&& r matches Some((b, n)) && b.address() == out.0 && b.content().len == out.1 && n == out.2
                    &&& frontier_replaced(pre, post, after_placing(f, Some(out)))
                },
                None => {
                    ||| r is None && post.chain() == pre.chain() && post.frontier() == f
                    ||| r matches Some((b, n)) && pushed(pre, post) && exists|s0: ChunkState|
                        s0.wf() && #[trigger] dst_outcome(s0, hs, ha, es, ea, lo as int, hi as int) == Some(
                        (b.address(), b.content().len, n),
                    ) && post.frontier() == after_placing(s0, Some((b.address(), b.content().len, n)))
                },
            }
        })
}

/// What [LocalArena::alloc_remaining_slice_with_layout] does, from `pre` to `post`, returning `r`.
pub open spec fn remaining_allocated(pre: LocalArena, post: LocalArena, element_layout: Layout, maximum_len: usize, r: (Box<Uninit>, usize)) -> bool {
    &&& ({
            let es = element_layout.size_spec() as int;
            let ea = element_layout.align_spec() as int;
            let f = pre.frontier();
            let out = remaining_outcome(f, es, ea, maximum_len as int);
            if es == 0 {
                &&& r.0.address() == DANGLING && r.0.content().len == 0 && r.1 == maximum_len
                &&& post.chain() == pre.chain() && post.frontier() == f
            } else if out.2 > 0 || maximum_len == 0 {
                &&& r.0.address() == out.0 && r.0.content().len == out.1 && r.1 == out.2
                &&& frontier_replaced(pre, post, remaining_after(f, es, ea, maximum_len as int))
            } else {
                let tried = if pre.chain().len() == 0 {
                    pre.chain()
                } else {
                    pre.chain().update(0, remaining_after(f, es, ea, maximum_len as int))
                };
                ||| r.0.address() == DANGLING && r.0.content().len == 0 && r.1 == 0 && post.chain() == tried
                ||| r.1 > 0 && post.chain().len() == tried.len() + 1 && post.chain().skip(1) == tried
                    && post.frontier() == post.chain()[0] && exists|s0: ChunkState| s0.wf()
                    && #[trigger] remaining_outcome(s0, es, ea, maximum_len as int) == (
                    r.0.address(),
                    r.0.content().len,
                    r.1,
                ) && post.frontier() == remaining_after(s0, es, ea, maximum_len as int)
            }
        })
}

/// What [LocalArena::alloc_remaining_slice_from_iter_with_order] does, from `pre` to `post`, returning `r`.
pub open spec fn items_allocated<T>(pre: LocalArena, post: LocalArena, items: Vec<T>, inserting_order: InsertingOrder, r: (Box<Vec<T>>, Option<Vec<T>>)) -> bool {
    &&& ({
            let size = vstd::layout::size_of::<T>() as int;
            let align = vstd::layout::align_of::<T>() as int;
            let f = pre.frontier();
            if size == 0 {
                &&& r.0.address() == align && r.0.content()@ == arranged(items@, inserting_order) && r.1 is None
                &&& post.chain() == pre.chain() && post.frontier() == f
            } else {
                ||| fill_result(f, items@, inserting_order, post.frontier(), r.0, r.1)
                    && frontier_replaced(pre, post, post.frontier())
                ||| pushed(pre, post) && exists|s0: ChunkState| s0.wf()
                    && #[trigger] fill_result(s0, items@, inserting_order, post.frontier(), r.0, r.1)
                ||| r.0.content()@.len() == 0 && r.0.address() == align && (r.1 matches Some(rest)
                    && rest@ == items@) && post.chain() == pre.chain()
            }
        })
}

/// Filling a chunk from `items` places a first part of them, in order, and
/// hands the others back.
pub proof fn lemma_fill_split<T>(
    c: ChunkState,
    items: Seq<T>,
    order: InsertingOrder,
    after: ChunkState,
    b: Box<Vec<T>>,
    rest: Option<Vec<T>>,
)
    requires
        fill_result(c, items, order, after, b, rest),
        vstd::layout::size_of::<T>() > 0,
    ensures
        split_off(items, order, b.content()@, rest),
{
    let size = vstd::layout::size_of::<T>() as int;
    let align = vstd::layout::align_of::<T>() as int;
    let aligned = crate::chunk::aligned_bump(c, align);
    if aligned < c.start {
        assert(items.take(0) =~= Seq::<T>::empty());
        assert(items.skip(0) =~= items);
        assert(arranged(items.take(0), order) =~= b.content()@);
    } else {
        let max_fit = (aligned - c.start) / size;
        let n = crate::chunk::fill_count(items.len() as int, max_fit);
        if n == 0 {
            assert(items.take(0) =~= Seq::<T>::empty());
            assert(arranged(items.take(0), order) =~= b.content()@);
        } else {
            assert(arranged(items.take(n), order) == b.content()@);
        }
        if rest is None {
            assert(items.take(n) =~= items.take(items.len() as int));
        }
    }
}

/// What an arena's filling from `items` returns comes from `items`: a first
/// part of them, laid out in the order asked for, and the others in order.
pub proof fn lemma_items_split<T>(
    pre: LocalArena,
    post: LocalArena,
    items: Vec<T>,
    order: InsertingOrder,
    r: (Box<Vec<T>>, Option<Vec<T>>),
)
    requires
        items_allocated(pre, post, items, order, r),
    ensures
        split_off(items@, order, r.0.content()@, r.1),
{
    let size = vstd::layout::size_of::<T>() as int;
    let f = pre.frontier();
    if size == 0 {
        assert(items@.take(items@.len() as int) =~= items@);
        assert(arranged(items@.take(items@.len() as int), order) == r.0.content()@);
    } else if fill_result(f, items@, order, post.frontier(), r.0, r.1) {
        lemma_fill_split(f, items@, order, post.frontier(), r.0, r.1);
    } else if exists|s0: ChunkState| s0.wf() && #[trigger] fill_result(s0, items@, order, post.frontier(), r.0, r.1) {
        let s0 = choose|s0: ChunkState| s0.wf() && #[trigger] fill_result(s0, items@, order, post.frontier(), r.0, r.1);
        lemma_fill_split(s0, items@, order, post.frontier(), r.0, r.1);
    } else {
        assert(items@.take(0) =~= Seq::<T>::empty());
        assert(items@.skip(0) =~= items@);
        assert(arranged(items@.take(0), order) =~= r.0.content()@);
    }
}

/// A builder run with the layouts `info` describes, from `pre` to `post`,
/// returning `r`: in the current chunk, with [finish]'s outcome, when it has
/// a plan for them; else in a chunk from the pool that has one, which is
/// then current when the run succeeded.
pub open spec fn dst_run(pre: LocalArena, post: LocalArena, info: DSTInfo, r: Result<(Box<Vec<u8>>, WriteElementState), CancellationError>) -> bool {
    match dst_plan_spec(pre.frontier(), info) {
        Some(plan) => finish_outcome(pre.frontier(), info, plan, r, post.frontier()) && frontier_replaced(
            pre,
            post,
            post.frontier(),
        ),
        None => (r is Err && post.chain() == pre.chain() && post.frontier() == pre.frontier()) || (r is Ok
            && pushed(pre, post) && exists|s0: ChunkState, plan: DstPlan|
            s0.wf() && dst_plan_spec(s0, info) == Some(plan) && #[trigger] finish_outcome(
                s0,
                info,
                plan,
                r,
                post.frontier(),
            )),
    }
}

/// A run of a builder with the header and element layouts `h` and `e`, from
/// `pre` to `post`, returning `r`: cancelled before any write when the
/// layouts do not combine; otherwise, unless cancelled before any write, a
/// run as [dst_run] says for layout facts of these layouts.
pub open spec fn built_with_layouts(pre: LocalArena, post: LocalArena, h: Layout, e: Layout, r: Result<(Box<Vec<u8>>, WriteElementState), CancellationError>) -> bool {
    &&& !(exists|m: nat| #[trigger] dst_info_ok(h.size_spec(), h.align_spec(), e.size_spec(), e.align_spec(), m))
        ==> r == Err::<(Box<Vec<u8>>, WriteElementState), CancellationError>(CancellationError::CancelledBeforeWrite)
    &&& r != Err::<(Box<Vec<u8>>, WriteElementState), CancellationError>(CancellationError::CancelledBeforeWrite)
        ==> exists|info: DSTInfo|
        info.consistent() && info.header_layout == h && info.element_layout == e && #[trigger] dst_run(pre, post, info, r)
}

/// A value that a run of a builder with layout facts `info` built is as
/// long as the header, padded, and the elements written.
pub proof fn lemma_run_len(pre: LocalArena, post: LocalArena, info: DSTInfo, r: Result<(Box<Vec<u8>>, WriteElementState), CancellationError>)
    requires
        info.consistent(),
        dst_run(pre, post, info, r),
        r is Ok,
    ensures
        r->Ok_0.0.content()@.len() == info.header_offset + r->Ok_0.1.count_spec()
            * info.element_layout.size_spec(),
{
    let n = r->Ok_0.1.count_spec() as int;
    let es = info.element_layout.size_spec() as int;
    let plan = match dst_plan_spec(pre.frontier(), info) {
        Some(p) => p,
        None => {
            let (s0, p) = choose|s0: ChunkState, plan: DstPlan|
                s0.wf() && dst_plan_spec(s0, info) == Some(plan) && #[trigger] finish_outcome(
                    s0,
                    info,
                    plan,
                    r,
                    post.frontier(),
                );
            p
        },
    };
    if plan is Rare {
        if es == 0 {
            assert(n * es == 0) by (nonlinear_arith)
                requires
                    es == 0,
            ;
        }
    }
}

/// A value placed as [dst_allocated] says is as long as its header, padded
/// to the elements' alignment, and its elements.
pub proof fn lemma_dst_allocated_len(pre: LocalArena, post: LocalArena, header_layout: Layout, element_layout: Layout, elements_len: Range<usize>, r: Option<(Box<Uninit>, usize)>)
    requires
        pre.wf(),
        dst_allocated(pre, post, header_layout, element_layout, elements_len, r),
    ensures
        r matches Some((b, n)) ==> b.content().len == crate::chunk::dst_offset(header_layout.size_spec(), element_layout.align_spec())
            + n * element_layout.size_spec(),
{
    pre.lemma_frontier();
    let (lo, hi) = ordered(elements_len);
    let hs = header_layout.size_spec();
    let ha = header_layout.align_spec();
    let es = element_layout.size_spec();
    let ea = element_layout.align_spec();
    if dst_outcome(pre.frontier(), hs, ha, es, ea, lo as int, hi as int) is Some {
        crate::chunk::lemma_dst_inside(pre.frontier(), hs, ha, es, ea, lo as int, hi as int);
    } else if r is Some {
        let s0 = choose|s0: ChunkState|
            s0.wf() && #[trigger] dst_outcome(s0, hs, ha, es, ea, lo as int, hi as int) == Some(
                (r->Some_0.0.address(), r->Some_0.0.content().len, r->Some_0.1),
            ) && post.frontier() == after_placing(s0, Some((r->Some_0.0.address(), r->Some_0.0.content().len, r->Some_0.1)));
        crate::chunk::lemma_dst_inside(s0, hs, ha, es, ea, lo as int, hi as int);
    }
}

/// A slice placed as [slice_allocated] says holds its count of elements.
pub proof fn lemma_slice_allocated_len(pre: LocalArena, post: LocalArena, element_layout: Layout, range_len: Range<usize>, r: Option<(Box<Uninit>, usize)>)
    requires
        pre.wf(),
        element_layout.align_spec() > 0,
        slice_allocated(pre, post, element_layout, range_len, r),
    ensures
        r matches Some((b, n)) ==> b.content().len == n * element_layout.size_spec(),
{
    pre.lemma_frontier();
    let (lo, hi) = ordered(range_len);
    let es = element_layout.size_spec() as int;
    let ea = element_layout.align_spec() as int;
    if es == 0 {
        if r is Some {
            let n = r->Some_0.1 as int;
            assert(n * es == 0) by (nonlinear_arith)
                requires
                    es == 0,
            ;
        }
    } else if slice_outcome(pre.frontier(), es, ea, lo as int, hi as int) is Some {
        assert(0 * es == 0);
        lemma_align(pre.frontier().bump, ea);
        if aligned_bump(pre.frontier(), ea) >= pre.frontier().start {
            crate::chunk::lemma_slice_inside(pre.frontier(), es, ea, lo as int, hi as int);
        }
    } else if r is Some {
        let s0 = choose|s0: ChunkState|
            s0.wf() && #[trigger] slice_outcome(s0, es, ea, lo as int, hi as int) == Some(
                (r->Some_0.0.address(), r->Some_0.0.content().len, r->Some_0.1),
            ) && post.frontier() == after_placing(s0, Some((r->Some_0.0.address(), r->Some_0.0.content().len, r->Some_0.1)));
        lemma_align(s0.bump, ea);
        if aligned_bump(s0, ea) >= s0.start {
            crate::chunk::lemma_slice_inside(s0, es, ea, lo as int, hi as int);
        }
    }
}

/// A slice placed as [remaining_allocated] says holds its count of
/// elements, at most `maximum_len`.
pub proof fn lemma_remaining_allocated_len(pre: LocalArena, post: LocalArena, element_layout: Layout, maximum_len: usize, r: (Box<Uninit>, usize))
    requires
        pre.wf(),
        element_layout.align_spec() > 0,
        remaining_allocated(pre, post, element_layout, maximum_len, r),
    ensures
        r.0.content().len == r.1 * element_layout.size_spec(),
        r.1 <= maximum_len,
{
    pre.lemma_frontier();
    let es = element_layout.size_spec() as int;
    let ea = element_layout.align_spec() as int;
    if es == 0 {
        let n = r.1 as int;
        assert(n * es == 0) by (nonlinear_arith)
            requires
                es == 0,
        ;
    } else {
        crate::chunk::lemma_remaining_len(pre.frontier(), es, ea, maximum_len as int);
        if !(remaining_outcome(pre.frontier(), es, ea, maximum_len as int).2 > 0 || maximum_len == 0) && r.1 > 0 {
            let s0 = choose|s0: ChunkState| s0.wf()
                && #[trigger] remaining_outcome(s0, es, ea, maximum_len as int) == (
                r.0.address(),
                r.0.content().len,
                r.1,
            ) && post.frontier() == remaining_after(s0, es, ea, maximum_len as int);
            crate::chunk::lemma_remaining_len(s0, es, ea, maximum_len as int);
        }
    }
}

/// What [LocalArena::try_alloc_remaining_dst_with_builder] does, from `pre` to `post`, returning `r`.
pub open spec fn built_in(pre: LocalArena, post: LocalArena, r: Result<(Box<Vec<u8>>, WriteElementState), CancellationError>) -> bool {
    &&& r is Err ==> post.chain() == pre.chain() && post.frontier() == pre.frontier()
    &&& r matches Ok((b, st)) ==> (frontier_replaced(pre, post, post.frontier()) || pushed(
            pre,
            post,
        )) && (b.address() == post.frontier().bump || (b.address() == DANGLING && b.content()@.len()
            == 0))
}

/// `new` is `old` with its current chunk in state `st`.
pub open spec fn frontier_replaced(old: LocalArena, new: LocalArena, st: ChunkState) -> bool {
    &&& new.frontier() == st
    &&& new.chain() == (if old.chain().len() == 0 {
        old.chain()
    } else {
        old.chain().update(0, st)
    })
}

/// `new` is `old` with one more chunk, now current, in front.
pub open spec fn pushed(old: LocalArena, new: LocalArena) -> bool {
    &&& new.chain().len() == old.chain().len() + 1
    &&& new.chain().skip(1) == old.chain()
    &&& new.frontier() == new.chain()[0]
}

/// The smaller and the larger bound of a range, in order.
pub open spec fn ordered(r: Range<usize>) -> (usize, usize) {
    if r.start <= r.end {
        (r.start, r.end)
    } else {
        (r.end, r.start)
    }
}

/// A box for an empty allocation of bytes.
fn empty_bytes() -> (r: Box<Uninit>)
    ensures
        r.address() == DANGLING,
        r.content().len == 0,
{
    Box::from_parts(DANGLING, Uninit { len: 0 })
}

impl LocalArena {
    /// Replaces the current chunk by `c`.
    fn put_frontier(&mut self, c: Chunk, was_sentinel: bool)
        requires
            old(self).wf(),
            c.wf(),
            was_sentinel ==> old(self).chain@.len() == 0 && c@ == fresh_chunk(0),
            !was_sentinel ==> old(self).chain@.len() >= 0,
        ensures
            final(self).wf(),
            !was_sentinel ==> final(self).chain() == seq![c@] + old(self).chain(),
            was_sentinel ==> final(self).chain() == old(self).chain(),
            final(self).frontier() == c@,
    {
        if was_sentinel {
            self.sentinel = c;
        } else {
            self.push_frontier(c);
        }
    }

    /// Takes the current chunk out: the first of the chain, or a copy of the
    /// empty stand-in. The flag tells which.
    fn take_frontier(&mut self) -> (r: (Chunk, bool))
        requires
            old(self).wf(),
        ensures
            final(self).wf(),
            r.0.wf(),
            r.0@ == old(self).frontier(),
            r.1 <==> old(self).chain().len() == 0,
            r.1 ==> final(self).chain() == old(self).chain() && r.0@ == fresh_chunk(0),
            !r.1 ==> final(self).chain() == old(self).chain().skip(1),
            final(self).sentinel == old(self).sentinel,
    {
        if self.chain.len() == 0 {
            (Chunk::sentinel(), true)
        } else {
            let c = take_at(&mut self.chain, 0);
            proof {
                assert(states(self.chain@) =~= states(old(self).chain@).skip(1));
            }
            (c, false)
        }
    }
}


impl LocalArena {
    /// Takes between `range_len.start` and `range_len.end` elements of
    /// `element_layout` (the bounds taken in order), as many as fit in the
    /// current chunk, or else in the first pooled chunk where at least the
    /// minimum fits, which becomes current. Elements of no size take no
    /// memory: all of them are granted.
    pub fn try_alloc_remaining_slice_with_layout(&mut self, element_layout: Layout, range_len: Range<usize>)
        -> (r: Option<(Box<Uninit>, usize)>)
        requires
            old(self).wf(),
        ensures
            final(self).wf(),
            slice_allocated(*old(self), *final(self), element_layout, range_len, r),
    {
        let (lo, hi) = if range_len.start <= range_len.end {
            (range_len.start, range_len.end)
        } else {
            (range_len.end, range_len.start)
        };
        if element_layout.size() == 0 {
            return Some((empty_bytes(), hi));
        }
        let (mut c, was_sentinel) = self.take_frontier();
        let ghost f = c@;
        match c.try_alloc_remaining_slice_with_layout(&element_layout, lo..hi) {
            Some(out) => {
                self.put_frontier(c, was_sentinel);
                proof {
                    assert(self.chain() =~= (if old(self).chain().len() == 0 { old(self).chain() } else { old(self).chain().update(0, after_placing(f, Some(out))) }));
                }
                Some((Box::from_parts(out.0, Uninit { len: out.1 }), out.2))
            },
            None => {
                self.put_frontier(c, was_sentinel);
                proof {
                    assert(self.chain() =~= old(self).chain());
                }
                match self.shared.try_alloc_remaining_slice_with_layout(&element_layout, lo..hi) {
                    Some((chunk, out)) => {
                        self.push_frontier(chunk);
                        proof {
                            assert(self.chain().skip(1) =~= old(self).chain());
                            assert(self.chain()[0] == self.frontier());
                        }
                        Some((Box::from_parts(out.0, Uninit { len: out.1 }), out.2))
                    },
                    None => None,
                }
            },
        }
    }
}


impl LocalArena {
    /// Places a header of `header_layout` followed by between
    /// `elements_len.start` and `elements_len.end` elements of
    /// `element_layout` (the bounds taken in order), as many as fit, in the
    /// current chunk, or else in the first pooled chunk where the minimum
    /// fits, which becomes current.
    pub fn try_alloc_remaining_dst_with_layout(
        &mut self,
        header_layout: Layout,
        element_layout: Layout,
        elements_len: Range<usize>,
    ) -> (r: Option<(Box<Uninit>, usize)>)
        requires
            old(self).wf(),
        ensures
            final(self).wf(),
            dst_allocated(*old(self), *final(self), header_layout, element_layout, elements_len, r),
    {
        let (lo, hi) = if elements_len.start <= elements_len.end {
            (elements_len.start, elements_len.end)
        } else {
            (elements_len.end, elements_len.start)
        };
        let (mut c, was_sentinel) = self.take_frontier();
        let ghost f = c@;
        match c.try_alloc_remaining_dst_with_layout(&header_layout, &element_layout, lo..hi) {
            Some(out) => {
                self.put_frontier(c, was_sentinel);
                proof {
                    assert(self.chain() =~= (if old(self).chain().len() == 0 { old(self).chain() } else { old(self).chain().update(0, after_placing(f, Some(out))) }));
                }
                Some((Box::from_parts(out.0, Uninit { len: out.1 }), out.2))
            },
            None => {
                self.put_frontier(c, was_sentinel);
                proof {
                    assert(self.chain() =~= old(self).chain());
                }
                match self.shared.try_alloc_remaining_dst_layout(&header_layout, &element_layout, lo..hi) {
                    Some((chunk, out)) => {
                        self.push_frontier(chunk);
                        proof {
                            assert(self.chain().skip(1) =~= old(self).chain());
                            assert(self.chain()[0] == self.frontier());
                        }
                        Some((Box::from_parts(out.0, Uninit { len: out.1 }), out.2))
                    },
                    None => None,
                }
            },
        }
    }

    /// Takes as many elements of `element_layout` as fit in the current
    /// chunk, at most `maximum_len`. When none fits there (and some were
    /// asked for), takes them from the first pooled chunk that yields at
    /// least one, which becomes current; an empty allocation when none does.
    /// Elements of no size take no memory: all of them are granted.
    pub fn alloc_remaining_slice_with_layout(&mut self, element_layout: Layout, maximum_len: usize)
        -> (r: (Box<Uninit>, usize))
        requires
            old(self).wf(),
        ensures
            final(self).wf(),
            remaining_allocated(*old(self), *final(self), element_layout, maximum_len, r),
    {
        if element_layout.size() == 0 {
            return (empty_bytes(), maximum_len);
        }
        let (mut c, was_sentinel) = self.take_frontier();
        let ghost f = c@;
        let out = c.alloc_remaining_slice_with_layout(&element_layout, maximum_len);
        self.put_frontier(c, was_sentinel);
        proof {
            assert(self.chain() =~= (if old(self).chain().len() == 0 { old(self).chain() } else { old(self).chain().update(0, remaining_after(f, element_layout.size_spec() as int, element_layout.align_spec() as int, maximum_len as int)) }));
        }
        if out.2 > 0 || maximum_len == 0 {
            return (Box::from_parts(out.0, Uninit { len: out.1 }), out.2);
        }
        let ghost mid = *self;
        match self.shared.alloc_remaining_slice_with_layout(&element_layout, maximum_len) {
            Some((chunk, o)) => {
                self.push_frontier(chunk);
                proof {
                    assert(self.chain().skip(1) =~= mid.chain());
                    assert(self.chain()[0] == self.frontier());
                }
                (Box::from_parts(o.0, Uninit { len: o.1 }), o.2)
            },
            None => (empty_bytes(), 0),
        }
    }

    /// Moves as many of `items` as fit into a slice laid out in
    /// `inserting_order`, in the current chunk or else in the first pooled
    /// chunk that takes at least one, which becomes current. Returns the
    /// slice and the items left over, unless they all went in. Items of no
    /// size take no memory: all of them go in.
    pub fn alloc_remaining_slice_from_iter_with_order<T>(&mut self, items: Vec<T>, inserting_order: InsertingOrder)
        -> (r: (Box<Vec<T>>, Option<Vec<T>>))
        requires
            old(self).wf(),
        ensures
            final(self).wf(),
            items_allocated(*old(self), *final(self), items, inserting_order, r),
    {
        let layout = Layout::new::<T>();
        let size = layout.size();
        let align = layout.align();
        if size == 0 {
            let content = match inserting_order {
                InsertingOrder::Original => items,
                _ => crate::chunk::reverse_vec(items),
            };
            return (Box::from_parts(align, content), None);
        }
        let (mut c, was_sentinel) = self.take_frontier();
        let ghost f = c@;
        let (b, rest) = c.alloc_remaining_slice_from_iter_with_order(items, inserting_order);
        let ghost after = c@;
        self.put_frontier(c, was_sentinel);
        proof {
            assert(self.chain() =~= (if old(self).chain().len() == 0 { old(self).chain() } else { old(self).chain().update(0, after) }));
        }
        if b.len() == 0 {
            match rest {
                Some(back) => {
                    let ghost mid = *self;
                    proof {
                        assert(after == f);
                        assert(self.chain() =~= old(self).chain());
                    }
                    return match self.shared.alloc_remaining_slice_from_iter_with_order(back, inserting_order) {
                        Ok((chunk, out)) => {
                            self.push_frontier(chunk);
                            proof {
                                assert(self.chain().skip(1) =~= mid.chain());
                                assert(self.chain()[0] == self.frontier());
                                assert(back@ == items@) by {
                                    crate::chunk::lemma_fill_rest_whole(f, items@, inserting_order, after, b, rest);
                                }
                            }
                            out
                        },
                        Err(back2) => {
                            proof {
                                crate::chunk::lemma_fill_rest_whole(f, items@, inserting_order, after, b, rest);
                            }
                            (Box::from_parts(align, Vec::new()), Some(back2))
                        },
                    };
                },
                None => {},
            }
        }
        (b, rest)
    }

    /// Runs a builder: in the current chunk when it has a plan for it, else
    /// in the first pooled chunk that has one, which becomes current when the
    /// builder succeeds. `CancelledBeforeWrite` when the builder's layouts
    /// do not combine or no chunk has a plan.
    pub fn try_alloc_remaining_dst_with_builder<B: BuilderDST>(&mut self, builder: &mut B)
        -> (r: Result<(Box<Vec<u8>>, WriteElementState), CancellationError>)
        requires
            old(self).wf(),
        ensures
            final(self).wf(),
            built_in(*old(self), *final(self), r),
            ran(*old(builder), *final(builder), r),
            r == Err::<(Box<Vec<u8>>, WriteElementState), CancellationError>(CancellationError::CancelledBeforeWrite)
                ==> *final(builder) == *old(builder),
            old(builder).counts_calls() ==> built_with_layouts(*old(self), *final(self), old(builder).shape().header, old(builder).shape().element, r),
    {
        match DSTInfo::new(builder) {
            Some(info) => {
                let r = self.try_alloc_dst_with_info(builder, &info);
                proof {
                    if old(builder).counts_calls() {
                        let h = old(builder).shape().header;
                        let e = old(builder).shape().element;
                        assert(dst_info_ok(h.size_spec(), h.align_spec(), e.size_spec(), e.align_spec(), info.min_element as nat));
                        if r != Err::<(Box<Vec<u8>>, WriteElementState), CancellationError>(
                            CancellationError::CancelledBeforeWrite,
                        ) {
                            assert(dst_run(*old(self), *self, info, r));
                        }
                    }
                }
                r
            },
            None => {
                proof {
                    crate::dst::lemma_ran_untouched(*builder, builder.shape().header, builder.shape().element);
                }
                Err(CancellationError::CancelledBeforeWrite)
            },
        }
    }

    /// Runs a builder whose layouts `info` describes: in the current chunk
    /// when it has a plan for them, with [finish]'s outcome there; else in
    /// the first pooled chunk that has one, which becomes current when the
    /// builder succeeds. `CancelledBeforeWrite` comes only when the current
    /// chunk has no plan.
    pub fn try_alloc_dst_with_info<B: BuilderDST>(&mut self, builder: &mut B, info: &DSTInfo)
        -> (r: Result<(Box<Vec<u8>>, WriteElementState), CancellationError>)
        requires
            old(self).wf(),
            info.consistent(),
        ensures
            final(self).wf(),
            built_in(*old(self), *final(self), r),
            ran_as(*old(builder), *final(builder), info.header_layout, info.element_layout, r),
            r == Err::<(Box<Vec<u8>>, WriteElementState), CancellationError>(CancellationError::CancelledBeforeWrite)
                ==> *final(builder) == *old(builder),
            dst_plan_spec(old(self).frontier(), *info) is Some ==> r != Err::<
                (Box<Vec<u8>>, WriteElementState),
                CancellationError,
            >(CancellationError::CancelledBeforeWrite),
            r != Err::<(Box<Vec<u8>>, WriteElementState), CancellationError>(CancellationError::CancelledBeforeWrite)
                ==> dst_run(*old(self), *final(self), *info, r),
    {
        proof { self.lemma_frontier(); }
        let (mut c, was_sentinel) = self.take_frontier();
        let ghost f = c@;
        match plan_dst(&c, info) {
            Ok(plan) => {
                let res = finish(&mut c, plan, info, builder);
                self.put_frontier(c, was_sentinel);
                proof {
                    assert(self.chain() =~= (if old(self).chain().len() == 0 { old(self).chain() } else { old(self).chain().update(0, self.frontier()) }));
                    if res is Err {
                        assert(self.chain() =~= old(self).chain());
                    }
                }
                res
            },
            Err(()) => {
                self.put_frontier(c, was_sentinel);
                proof {
                    assert(self.chain() =~= old(self).chain());
                }
                let ghost mid = *self;
                match self.shared.try_alloc_remaining_dst_with_builder(builder, info) {
                    Ok((chunk, out)) => {
                        self.push_frontier(chunk);
                        proof {
                            assert(self.chain().skip(1) =~= mid.chain());
                            assert(self.chain()[0] == self.frontier());
                        }
                        Ok(out)
                    },
                    Err(e) => Err(e),
                }
            },
        }
    }
}


impl LocalArena {
    /// Number of chunks in the chain.
    pub fn chain_len(&self) -> (r: usize)
        ensures
            r == self.chain().len(),
    {
        proof {
            assert(states(self.chain@).len() == self.chain@.len());
        }
        self.chain.len()
    }

    /// Bump pointer of the current chunk.
    pub fn frontier_bump(&self) -> (r: usize)
        requires
            self.wf(),
        ensures
            r == self.frontier().bump,
    {
        if self.chain.len() == 0 {
            self.sentinel.bump_ptr()
        } else {
            self.chain[0].bump_ptr()
        }
    }

    /// Gives back to the pool the chunks in front of the last `depth` ones,
    /// and moves the bump pointer of the chunk that becomes current to `bump`
    /// when it lies in that chunk. Nothing changes when the chain holds fewer
    /// than `depth` chunks.
    pub fn rollback_to(&mut self, depth: usize, bump: usize)
        requires
            old(self).wf(),
        ensures
            final(self).wf(),
            final(self).chain() == rollback_chain(old(self).chain(), depth as nat, bump as int),
    {
        let ghost now = self.chain();
        proof { self.lemma_frontier(); }
        if depth > self.chain.len() {
            return;
        }
        let mut popped: Vec<Chunk> = Vec::new();
        while self.chain.len() > depth
            invariant
                self.wf(),
                depth <= self.chain@.len(),
                all_wf(popped@),
                self.chain() == now.skip(now.len() - self.chain@.len()),
                now.len() >= self.chain@.len(),
                self.shared == old(self).shared,
            decreases self.chain@.len(),
        {
            let c = take_at(&mut self.chain, 0);
            proof {
                assert(self.chain() =~= now.skip(now.len() - self.chain@.len()));
            }
            popped.push(c);
        }
        if popped.len() > 0 {
            self.shared.store_chunks(popped);
        }
        proof {
            assert(self.chain@.len() == depth);
            assert(self.chain() == now.skip(now.len() - depth));
        }
        if depth > 0 {
            let mut c = take_at(&mut self.chain, 0);
            let ghost kept0 = c@;
            if c.start_addr() <= bump && bump <= c.end_addr() {
                c.move_bump_to(bump);
            }
            put_at(&mut self.chain, 0, c);
            proof {
                let kept = now.skip(now.len() - depth);
                assert(kept[0] == kept0);
                if kept0.start <= bump <= kept0.end() {
                    assert(self.chain() =~= kept.update(0, kept0.with_bump(bump as int)));
                } else {
                    assert(self.chain() =~= kept);
                }
            }
        }
    }
}

/// Over any chunks, bytes handed out never exceed bytes of storage, which
/// are fewer than the bytes the chunks occupy.
pub proof fn lemma_sum_order(s: Seq<ChunkState>)
    requires
        forall|i: int| 0 <= i < s.len() ==> (#[trigger] s[i]).wf(),
    ensures
        sum_used(s) <= sum_len(s) <= sum_total(s),
        s.len() > 0 ==> sum_len(s) < sum_total(s),
    decreases s.len(),
{
    if s.len() > 0 {
        assert(s.last() == s[s.len() - 1]);
        lemma_sum_order(s.drop_last());
        crate::layout::lemma_align(24 + s.last().len, 8);
    }
}

impl LocalArena {
    /// What `allocation_info` reports is ordered: user bytes never exceed
    /// storage bytes, and the bytes of the chunks exceed the storage bytes
    /// unless the sum reached `usize::MAX`.
    pub proof fn lemma_info_order(&self)
        requires
            self.wf(),
        ensures
            self.info_spec().user_bytes <= self.info_spec().storage_bytes <= self.info_spec().total_bytes,
            self.info_spec().storage_bytes < self.info_spec().total_bytes || self.info_spec().total_bytes
                == usize::MAX,
    {
        self.lemma_frontier();
        lemma_sum_order(self.chain());
        lemma_sums_nonneg(self.chain());
        crate::layout::lemma_align(24, 8);
    }
}

/// The bytes handed out from a chain with `x` in front are those of `x`
/// and those of the rest.
proof fn lemma_sum_used_front(x: ChunkState, s: Seq<ChunkState>)
    ensures
        sum_used(seq![x] + s) == x.used() + sum_used(s),
    decreases s.len(),
{
    if s.len() == 0 {
        assert((seq![x] + s).drop_last() =~= Seq::<ChunkState>::empty());
        assert((seq![x] + s).last() == x);
        assert(sum_used(Seq::<ChunkState>::empty()) == 0);
    } else {
        assert((seq![x] + s).drop_last() =~= seq![x] + s.drop_last());
        assert((seq![x] + s).last() == s.last());
        lemma_sum_used_front(x, s.drop_last());
    }
}

/// A block allocated from a local arena adds at least its size to the bytes
/// the arena has handed out.
pub proof fn lemma_alloc_hands_out(pre: LocalArena, post: LocalArena, layout: Layout, r: Result<Box<Uninit>, AllocError>)
    requires
        pre.wf(),
        post.wf(),
        layout.align_spec() > 0,
        layout_allocated(pre, post, layout, r),
        r is Ok,
    ensures
        sum_used(post.chain()) >= sum_used(pre.chain()) + layout.size_spec(),
{
    pre.lemma_frontier();
    post.lemma_frontier();
    let f = pre.frontier();
    let size = layout.size_spec() as int;
    let align = layout.align_spec() as int;
    if fits(f, size, align) {
        lemma_align(f.bump, align);
        lemma_align(size, align);
        if pre.chain().len() > 0 {
            let a = placed_at(f, size, align);
            let rest = pre.chain().skip(1);
            assert(pre.chain() =~= seq![f] + rest);
            assert(post.chain() =~= seq![f.with_bump(a)] + rest);
            lemma_sum_used_front(f, rest);
            lemma_sum_used_front(f.with_bump(a), rest);
        }
    } else {
        assert(post.chain() =~= seq![post.frontier()] + pre.chain());
        lemma_sum_used_front(post.frontier(), pre.chain());
    }
}

impl LocalArena {
    /// After a reset the arena holds nothing: no byte handed out, no storage,
    /// and no room in the current chunk, so the next allocation takes a chunk.
    pub proof fn lemma_reset_clears(&self)
        requires
            self.wf(),
            self.chain().len() == 0,
        ensures
            self.info_spec().user_bytes == 0,
            self.info_spec().storage_bytes == 0,
            self.frontier().remaining() == 0,
    {
        self.lemma_frontier();
    }
}

/// Sums over chunks are never negative.
pub proof fn lemma_sums_nonneg(s: Seq<ChunkState>)
    requires
        forall|i: int| 0 <= i < s.len() ==> (#[trigger] s[i]).wf(),
    ensures
        sum_used(s) >= 0,
        sum_len(s) >= 0,
        sum_total(s) >= 0,
    decreases s.len(),
{
    if s.len() > 0 {
        assert(s.last() == s[s.len() - 1]);
        lemma_sums_nonneg(s.drop_last());
        crate::layout::lemma_align(24 + s.last().len, 8);
    }
}

impl SharedArena {
    /// A local arena of this shared arena.
    pub fn make_local(&self) -> (r: LocalArena)
        ensures
            r.shared_arena() == *self,
            r.wf(),
            r.chain().len() == 0,
    {
        LocalArena::new(self.clone())
    }
}

} // verus!
