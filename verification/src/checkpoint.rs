//! Checkpoints of a local arena, to which it can be rolled back.
use vstd::prelude::*;
use crate::chunk::ChunkState;
use crate::local_arena::{
    LocalArena, layout_allocated, slice_allocated, dst_allocated, remaining_allocated, items_allocated, built_in,
    built_with_layouts,
};
use crate::pool::SharedArena;
use crate::arena::Arena;
use crate::layout::Layout;
use crate::boxed::{Box, Uninit};
use crate::{AllocError, AllocationInfo, BuilderDST, CancellationError, InsertingOrder, WriteElementState};
use core::ops::Range;

verus! {

/// Chain of chunks after rolling back from `now` to a checkpoint taken with
/// `depth` chunks and the current bump pointer at `bump`: the chunks added
/// since are gone, and the bump pointer of the chunk that was current is back
/// where it was. A checkpoint deeper than the chain changes nothing.
pub open spec fn rollback_chain(now: Seq<ChunkState>, depth: nat, bump: int) -> Seq<ChunkState> {
    if depth > now.len() {
        now
    } else {
        let kept = now.skip(now.len() - depth);
        if depth > 0 && kept[0].start <= bump <= kept[0].end() {
            kept.update(0, kept[0].with_bump(bump))
        } else {
            kept
        }
    }
}

/// A point in the life of a local arena that it can be rolled back to.
///
/// The checkpoint holds the arena: allocations go on through it, and a
/// rollback undoes those made after the checkpoint, the chunks the arena
/// took since going back to the shared pool. Dropping the checkpoint keeps
/// them.
pub struct LocalArenaCheckpoint<'a> {
    /// The arena the checkpoint was taken of.
    pub arena: &'a mut LocalArena,
    /// Number of chunks the arena held.
    pub depth: usize,
    /// Bump pointer of the arena's current chunk.
    pub bump: usize,
}

impl<'a> LocalArenaCheckpoint<'a> {
    /// A checkpoint of `arena` as it is now, through which the arena is used
    /// until the checkpoint is dropped.
    pub fn make_checkpoint_owner(arena: &'a mut LocalArena) -> (r: LocalArenaCheckpoint<'a>)
        requires
            old(arena).wf(),
        ensures
            *r.arena == *old(arena),
            *final(r.arena) == *final(arena),
            r.depth == old(arena).chain().len(),
            r.bump == old(arena).frontier().bump,
    {
        let depth = arena.chain_len();
        let bump = arena.frontier_bump();
        LocalArenaCheckpoint { arena, depth, bump }
    }

    /// A checkpoint, taken inside this one, of the arena as it is now.
    pub fn make_checkpoint(&mut self) -> (r: LocalArenaCheckpoint<'_>)
        requires
            old(self).arena.wf(),
        ensures
            *r.arena == *old(self).arena,
            *final(r.arena) == *final(self).arena,
            *final(final(self).arena) == *final(old(self).arena),
            final(self).depth == old(self).depth,
            final(self).bump == old(self).bump,
            r.depth == old(self).arena.chain().len(),
            r.bump == old(self).arena.frontier().bump,
    {
        let depth = self.arena.chain_len();
        let bump = self.arena.frontier_bump();
        LocalArenaCheckpoint { arena: &mut *self.arena, depth, bump }
    }

    /// The shared arena the checkpointed arena belongs to.
    pub fn get_shared(&self) -> (r: SharedArena)
        ensures
            r == old(self.arena).shared_arena(),
    {
        self.arena.get_shared()
    }

    /// Rolls the arena back to this checkpoint.
    pub fn rollback(&mut self)
        requires
            old(self).arena.wf(),
        ensures
            final(self).arena.wf(),
            final(self).arena.chain() == rollback_chain(old(self).arena.chain(), old(self).depth as nat, old(self).bump as int),
            final(self).depth == old(self).depth,
            final(self).bump == old(self).bump,
            *final(final(self).arena) == *final(old(self).arena),
    {
        self.arena.rollback_to(self.depth, self.bump);
    }
}

/// A checkpoint allocates from the arena it holds; every operation leaves it
/// holding the same arena.
impl<'a> Arena for LocalArenaCheckpoint<'a> {
    open spec fn inv(&self) -> bool {
        self.arena.wf()
    }

    open spec fn allocated(pre: &Self, post: &Self, layout: Layout, r: Result<Box<Uninit>, AllocError>) -> bool {
        layout_allocated(*pre.arena, *post.arena, layout, r)
    }

    open spec fn runs(pre: &Self, post: &Self, shape: crate::BuilderShape, r: Result<(Box<Vec<u8>>, WriteElementState), CancellationError>) -> bool {
        built_with_layouts(*pre.arena, *post.arena, shape.header, shape.element, r)
    }

    open spec fn capacity_spec(&self) -> nat {
        self.arena.frontier().remaining() as nat
    }

    fn try_alloc_layout(&mut self, layout: Layout) -> (r: Result<Box<Uninit>, AllocError>)
        ensures
            layout_allocated(*old(self).arena, *final(self).arena, layout, r),
            *final(final(self).arena) == *final(old(self).arena),
            final(self).depth == old(self).depth,
            final(self).bump == old(self).bump,
    {
        Arena::try_alloc_layout(&mut *self.arena, layout)
    }

    fn try_alloc_remaining_dst_with_builder<B: BuilderDST>(&mut self, builder: &mut B)
        -> (r: Result<(Box<Vec<u8>>, WriteElementState), CancellationError>)
        ensures
            built_in(*old(self).arena, *final(self).arena, r),
            old(builder).counts_calls() ==> built_with_layouts(
                *old(self).arena,
                *final(self).arena,
                old(builder).shape().header,
                old(builder).shape().element,
                r,
            ),
            *final(final(self).arena) == *final(old(self).arena),
            final(self).depth == old(self).depth,
            final(self).bump == old(self).bump,
    {
        let r = Arena::try_alloc_remaining_dst_with_builder(&mut *self.arena, builder);
        proof {
            if old(builder).counts_calls() {
                assert(Self::runs(old(self), self, old(builder).shape(), r));
            }
        }
        r
    }

    fn reset(&mut self)
        ensures
            *final(final(self).arena) == *final(old(self).arena),
            final(self).depth == old(self).depth,
            final(self).bump == old(self).bump,
    {
        Arena::reset(&mut *self.arena)
    }

    fn allocation_info(&self) -> (r: AllocationInfo)
        ensures
            r == old(self.arena).info_spec(),
    {
        Arena::allocation_info(&*self.arena)
    }

    fn remaining_chunk_capacity(&self) -> (r: usize) {
        Arena::remaining_chunk_capacity(&*self.arena)
    }

    fn try_alloc_remaining_dst_with_layout(&mut self, header_layout: Layout, element_layout: Layout, elements_len: Range<usize>)
        -> (r: Option<(Box<Uninit>, usize)>)
        ensures
            dst_allocated(*old(self).arena, *final(self).arena, header_layout, element_layout, elements_len, r),
            *final(final(self).arena) == *final(old(self).arena),
            final(self).depth == old(self).depth,
            final(self).bump == old(self).bump,
    {
        Arena::try_alloc_remaining_dst_with_layout(&mut *self.arena, header_layout, element_layout, elements_len)
    }

    fn try_alloc_remaining_slice_with_layout(&mut self, element_layout: Layout, range_len: Range<usize>)
        -> (r: Option<(Box<Uninit>, usize)>)
        ensures
            slice_allocated(*old(self).arena, *final(self).arena, element_layout, range_len, r),
            *final(final(self).arena) == *final(old(self).arena),
            final(self).depth == old(self).depth,
            final(self).bump == old(self).bump,
    {
        Arena::try_alloc_remaining_slice_with_layout(&mut *self.arena, element_layout, range_len)
    }

    fn alloc_remaining_slice_with_layout(&mut self, element_layout: Layout, maximum_len: usize)
        -> (r: (Box<Uninit>, usize))
        ensures
            remaining_allocated(*old(self).arena, *final(self).arena, element_layout, maximum_len, r),
            *final(final(self).arena) == *final(old(self).arena),
            final(self).depth == old(self).depth,
            final(self).bump == old(self).bump,
    {
        Arena::alloc_remaining_slice_with_layout(&mut *self.arena, element_layout, maximum_len)
    }

    fn alloc_remaining_slice_from_iter_with_order<T>(&mut self, items: Vec<T>, inserting_order: InsertingOrder)
        -> (r: (Box<Vec<T>>, Option<Vec<T>>))
        ensures
            items_allocated(*old(self).arena, *final(self).arena, items, inserting_order, r),
            *final(final(self).arena) == *final(old(self).arena),
            final(self).depth == old(self).depth,
            final(self).bump == old(self).bump,
    {
        let r = Arena::alloc_remaining_slice_from_iter_with_order(&mut *self.arena, items, inserting_order);
        r
    }
}

/// Rolling back undoes allocations: when since a checkpoint the arena only
/// moved the bump pointer of the chunk that was current and put new chunks
/// in front, rolling back restores the chain as it was at the checkpoint.
pub proof fn lemma_rollback_restores(then: Seq<ChunkState>, now: Seq<ChunkState>, bump: int)
    requires
        then.len() > 0 ==> then[0].bump == bump && then[0].wf(),
        now.len() >= then.len(),
        now.skip(now.len() - then.len()).len() == then.len(),
        then.len() > 0 ==> now[now.len() - then.len()].start == then[0].start
            && now[now.len() - then.len()].len == then[0].len,
        forall|i: int| 1 <= i < then.len() ==> now[now.len() - then.len() + i] == #[trigger] then[i],
    ensures
        rollback_chain(now, then.len(), bump) == then,
{
    let kept = now.skip(now.len() - then.len());
    if then.len() > 0 {
        assert(kept[0] == now[now.len() - then.len()]);
        let restored = kept.update(0, kept[0].with_bump(bump));
        assert(restored =~= then) by {
            assert forall|i: int| 0 <= i < then.len() implies restored[i] == then[i] by {
                if i > 0 {
                    assert(kept[i] == now[now.len() - then.len() + i]);
                }
            }
        }
    } else {
        assert(kept =~= then);
    }
}

} // verus!
