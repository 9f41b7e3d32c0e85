//! The shared pool of chunks: chunks given back by local arenas wait here,
//! most recently returned first, until a local arena takes one again.
use vstd::prelude::*;
use crate::layout::{Layout, align_up, lemma_align, checked_align_up};
use crate::chunk::{
    Chunk, ChunkState, fits, aligned_bump, slice_outcome, dst_outcome, remaining_outcome,
    remaining_after, after_placing, fresh_chunk, chunk_size_ok, fill_result, fill_accepts,
};
use crate::dst::{DSTInfo, DstPlan, dst_plan_spec, plan_dst};
use crate::boxed::Box;
use crate::{AllocError, InsertingOrder, BuilderDST, CancellationError, WriteElementState};
use crate::dst::{finish, finish_outcome, ran_as};
use core::ops::Range;
use std::sync::Arc;

verus! {

/// Storage length given to new chunks at least.
pub const MINIMUM_ALLOCATED_SIZE: usize = 1024;

/// Abstract states of a sequence of chunks.
pub open spec fn states(v: Seq<Chunk>) -> Seq<ChunkState> {
    v.map_values(|c: Chunk| c@)
}

/// Every chunk of the sequence is well formed.
pub open spec fn all_wf(v: Seq<Chunk>) -> bool {
    forall|i: int| 0 <= i < v.len() ==> (#[trigger] v[i]).wf()
}

/// `i` is the first position whose chunk holds a block of `size` bytes
/// aligned to `align`.
pub open spec fn first_fit(s: Seq<ChunkState>, size: int, align: int, i: int) -> bool {
    &&& 0 <= i < s.len()
    &&& fits(s[i], size, align)
    &&& forall|j: int| 0 <= j < i ==> !fits(#[trigger] s[j], size, align)
}

/// `i` is the first position whose chunk has a plan for `info`.
pub open spec fn first_planned(s: Seq<ChunkState>, info: DSTInfo, i: int) -> bool {
    &&& 0 <= i < s.len()
    &&& dst_plan_spec(s[i], info) is Some
    &&& forall|j: int| 0 <= j < i ==> dst_plan_spec(#[trigger] s[j], info) is None
}

/// `i` is the first position where `try_alloc_remaining_slice_with_layout`
/// succeeds.
pub open spec fn first_slice(s: Seq<ChunkState>, es: int, ea: int, lo: int, hi: int, i: int) -> bool {
    &&& 0 <= i < s.len()
    &&& slice_outcome(s[i], es, ea, lo, hi) is Some
    &&& forall|j: int| 0 <= j < i ==> slice_outcome(#[trigger] s[j], es, ea, lo, hi) is None
}

/// `i` is the first position where `try_alloc_remaining_dst_with_layout`
/// succeeds.
pub open spec fn first_dst(s: Seq<ChunkState>, hs: nat, ha: nat, es: nat, ea: nat, lo: int, hi: int, i: int) -> bool {
    &&& 0 <= i < s.len()
    &&& dst_outcome(s[i], hs, ha, es, ea, lo, hi) is Some
    &&& forall|j: int| 0 <= j < i ==> dst_outcome(#[trigger] s[j], hs, ha, es, ea, lo, hi) is None
}

/// `i` is the first position where `alloc_remaining_slice_with_layout`
/// yields an element.
pub open spec fn first_remaining(s: Seq<ChunkState>, es: int, ea: int, m: int, i: int) -> bool {
    &&& 0 <= i < s.len()
    &&& remaining_outcome(s[i], es, ea, m).2 > 0
    &&& forall|j: int| 0 <= j < i ==> remaining_outcome(#[trigger] s[j], es, ea, m).2 == 0
}

/// `i` is the first position where filling from items is accepted.
pub open spec fn first_fill(s: Seq<ChunkState>, size: int, align: int, i: int) -> bool {
    &&& 0 <= i < s.len()
    &&& fill_accepts(s[i], size, align)
    &&& forall|j: int| 0 <= j < i ==> !fill_accepts(#[trigger] s[j], size, align)
}

/// What `alloc_remaining_slice_with_layout` leaves of each chunk of `s`.
pub open spec fn remaining_after_all(s: Seq<ChunkState>, es: int, ea: int, m: int) -> Seq<ChunkState> {
    Seq::new(s.len(), |i: int| remaining_after(s[i], es, ea, m))
}

/// Storage length that holds a block of the given layout, rounded to its
/// alignment.
pub open spec fn min_chunk_size_spec(size: int, align: int) -> int {
    align_up(size, align)
}

/// Storage length that holds one block of `layout`.
pub fn min_chunk_size(layout: &Layout) -> (r: usize)
    ensures
        r == min_chunk_size_spec(layout.size_spec() as int, layout.align_spec() as int),
{
    let size = layout.size();
    let align = layout.align();
    match checked_align_up(size, align) {
        Some(v) => v,
        None => {
            proof { assert(false); }
            0
        },
    }
}

/// Largest of three numbers.
pub open spec fn max3(a: int, b: int, c: int) -> int {
    if a >= b && a >= c {
        a
    } else if b >= c {
        b
    } else {
        c
    }
}

/// Makes a chunk that holds at least one block of `minimum_layout`, trying
/// first `max(min, MINIMUM_ALLOCATED_SIZE, recommended)` bytes of storage
/// and halving on failure, never below the minimum. Fails with the error of
/// the last attempt, made at the minimum size.
pub fn make_chunk(minimum_layout: &Layout, recommended_size: usize) -> (r: Result<Chunk, AllocError>)
    ensures
        ({
            let min = min_chunk_size_spec(
                minimum_layout.size_spec() as int,
                minimum_layout.align_spec() as int,
            );
            let first = max3(min, MINIMUM_ALLOCATED_SIZE as int, recommended_size as int);
            &&& r matches Ok(c) ==> c.wf() && c@ == fresh_chunk(c@.len) && min <= c@.len <= first
            &&& r == Err::<Chunk, AllocError>(AllocError::InvalidLayout) <==> !chunk_size_ok(min)
        }),
{
    let minimum_size = min_chunk_size(minimum_layout);
    let base = if MINIMUM_ALLOCATED_SIZE >= recommended_size { MINIMUM_ALLOCATED_SIZE } else { recommended_size };
    let mut size = if minimum_size >= base { minimum_size } else { base };
    loop
        invariant
            minimum_size <= size,
            size <= max3(minimum_size as int, MINIMUM_ALLOCATED_SIZE as int, recommended_size as int),
            minimum_size == min_chunk_size_spec(
                minimum_layout.size_spec() as int,
                minimum_layout.align_spec() as int,
            ),
            !chunk_size_ok(minimum_size as int) ==> !chunk_size_ok(size as int),
        decreases size - minimum_size,
    {
        match Chunk::create_chunk(size) {
            Ok(c) => return Ok(c),
            Err(e) => {
                if size == minimum_size {
                    return Err(e);
                }
            },
        }
        let half = size / 2;
        size = if half >= minimum_size { half } else { minimum_size };
    }
}

/// Moves the chunk at position `i` out of `v`, keeping the order of the others.
pub(crate) fn take_at(v: &mut Vec<Chunk>, i: usize) -> (r: Chunk)
    requires
        i < old(v)@.len(),
        all_wf(old(v)@),
    ensures
        r == old(v)@[i as int],
        final(v)@ == old(v)@.remove(i as int),
        all_wf(final(v)@),
        r.wf(),
        states(final(v)@) == states(old(v)@).remove(i as int),
{
    let r = v.remove(i);
    proof {
        assert(states(v@) =~= states(old(v)@).remove(i as int));
    }
    r
}

/// Puts `c` back at position `i` of `v`.
pub(crate) fn put_at(v: &mut Vec<Chunk>, i: usize, c: Chunk)
    requires
        i <= old(v)@.len(),
        all_wf(old(v)@),
        c.wf(),
    ensures
        final(v)@ == old(v)@.insert(i as int, c),
        all_wf(final(v)@),
        states(final(v)@) == states(old(v)@).insert(i as int, c@),
{
    v.insert(i, c);
    proof {
        assert(states(v@) =~= states(old(v)@).insert(i as int, c@));
    }
}

/// The pool's chunks, most recently returned first.
pub struct ChunkPool {
    chunks: Vec<Chunk>,
}

impl ChunkPool {
    #[verifier::type_invariant]
    spec fn inv(self) -> bool {
        all_wf(self.chunks@)
    }

    /// States of the pooled chunks.
    pub closed spec fn view(&self) -> Seq<ChunkState> {
        states(self.chunks@)
    }

    /// The pooled chunks are well formed.
    fn view_is_wf(&self)
        ensures
            forall|k: int| 0 <= k < self.view().len() ==> (#[trigger] self.view()[k]).wf(),
    {
        proof {
            use_type_invariant(self);
            assert forall|k: int| 0 <= k < self.view().len() implies (#[trigger] self.view()[k]).wf() by {
                assert(self.view()[k] == self.chunks@[k]@);
                assert(self.chunks@[k].wf());
            }
        }
    }

    /// An empty pool.
    pub fn new() -> (r: ChunkPool)
        ensures
            r.view().len() == 0,
    {
        ChunkPool { chunks: Vec::new() }
    }

    /// Number of pooled chunks.
    pub fn len(&self) -> (r: usize)
        ensures
            r == self.view().len(),
    {
        self.chunks.len()
    }

    fn take_chunks(&mut self) -> (r: Vec<Chunk>)
        ensures
            all_wf(r@),
            states(r@) == old(self).view(),
            final(self).view().len() == 0,
    {
        proof { use_type_invariant(&*self); }
        let mut v: Vec<Chunk> = Vec::new();
        core::mem::swap(&mut v, &mut self.chunks);
        v
    }

    fn set_chunks(&mut self, v: Vec<Chunk>)
        requires
            all_wf(v@),
        ensures
            final(self).view() == states(v@),
    {
        self.chunks = v;
    }

    /// Takes out the first chunk, from the most recently returned, in which
    /// a block of `layout` fits.
    pub fn extract_chunk(&mut self, layout: &Layout) -> (r: Option<Chunk>)
        ensures
            ({
                let s = old(self).view();
                let size = layout.size_spec() as int;
                let align = layout.align_spec() as int;
                &&& r matches Some(c) ==> c.wf() && exists|i: int| first_fit(s, size, align, i) && c@ == s[i]
                    && final(self).view() == s.remove(i)
                &&& r is None ==> (forall|i: int| 0 <= i < s.len() ==> !fits(#[trigger] s[i], size, align))
                    && final(self).view() == s
            }),
    {
        let mut v = self.take_chunks();
        let ghost s = states(v@);
        let ghost size = layout.size_spec() as int;
        let ghost align = layout.align_spec() as int;
        let mut i: usize = 0;
        assert(s.len() == v@.len());
        while i < v.len()
            invariant
                s == old(self).view(),
                size == layout.size_spec() as int,
                align == layout.align_spec() as int,
                all_wf(v@),
                states(v@) == s,
                s.len() == v@.len(),
                i <= v@.len(),
                forall|j: int| 0 <= j < i ==> !fits(#[trigger] s[j], size, align),
            decreases v@.len() - i,
        {
            assert(v@[i as int].wf());
            assert(states(v@)[i as int] == v@[i as int]@);
            let ok = v[i].can_allocate(layout);
            if ok {
                assert(first_fit(s, size, align, i as int));
                let c = take_at(&mut v, i);
                self.set_chunks(v);
                assert(c@ == s[i as int] && self.view() == s.remove(i as int));
                return Some(c);
            }
            i = i + 1;
        }
        self.set_chunks(v);
        None
    }

    /// Returns a local arena's chunks, current first, to the pool: their
    /// storage is freed and they go before the chunks already pooled.
    pub fn store_chunks(&mut self, chain: Vec<Chunk>)
        requires
            all_wf(chain@),
        ensures
            final(self).view() == states(chain@).map_values(|c: ChunkState| c.cleaned()) + old(self).view(),
    {
        let mut old_chunks = self.take_chunks();
        let ghost old_s = states(old_chunks@);
        let ghost ch = states(chain@);
        let mut chain = chain;
        let mut out: Vec<Chunk> = Vec::new();
        let ghost n = chain@.len();
        // Clean the chain; `out` holds it cleaned, in reverse.
        while chain.len() > 0
            invariant
                all_wf(chain@),
                all_wf(out@),
                states(chain@) == ch.subrange(0, chain@.len() as int),
                out@.len() + chain@.len() == n,
                n == ch.len(),
                forall|k: int| 0 <= k < out@.len() ==> (#[trigger] out@[k])@ == ch[n - 1 - k].cleaned(),
            decreases chain@.len(),
        {
            let ghost before = states(chain@);
            let mut c = chain.pop().unwrap();
            proof {
                assert(states(chain@) =~= before.subrange(0, chain@.len() as int));
                assert(c@ == before[chain@.len() as int]);
            }
            c.clean();
            out.push(c);
        }
        // Lay the cleaned chain out current first, then the old chunks.
        let mut result: Vec<Chunk> = Vec::new();
        while out.len() > 0
            invariant
                all_wf(out@),
                all_wf(result@),
                forall|k: int| 0 <= k < out@.len() ==> (#[trigger] out@[k])@ == ch[n - 1 - k].cleaned(),
                forall|k: int| 0 <= k < result@.len() ==> (#[trigger] result@[k])@ == ch[k].cleaned(),
                n == ch.len(),
                out@.len() + result@.len() == n,
            decreases out@.len(),
        {
            let c = out.pop().unwrap();
            result.push(c);
        }
        proof {
            assert(states(result@) =~= ch.map_values(|c: ChunkState| c.cleaned()));
        }
        let ghost r1 = result@;
        let ghost oc = old_chunks@;
        result.append(&mut old_chunks);
        proof {
            assert(result@ == r1 + oc);
            assert(states(result@) =~= states(r1) + states(oc));
            assert forall|i: int| 0 <= i < result@.len() implies (#[trigger] result@[i]).wf() by {
                if i < r1.len() {
                    assert(result@[i] == r1[i]);
                } else {
                    assert(result@[i] == oc[i - r1.len()]);
                }
            }
        }
        self.set_chunks(result);
    }

    /// Puts a chunk back in front of the pool.
    pub fn push_front(&mut self, c: Chunk)
        requires
            c.wf(),
        ensures
            final(self).view() == seq![c@] + old(self).view(),
    {
        let mut v = self.take_chunks();
        put_at(&mut v, 0, c);
        proof {
            assert(states(v@) =~= seq![c@] + old(self).view());
        }
        self.set_chunks(v);
    }

    /// Takes out the first chunk whose plan for `info` succeeds.
    pub fn extract_planned(&mut self, info: &DSTInfo) -> (r: Option<(Chunk, DstPlan)>)
        requires
            info.consistent(),
        ensures
            ({
                let s = old(self).view();
                &&& r matches Some((c, plan)) ==> c.wf() && dst_plan_spec(c@, *info) == Some(plan)
                    && exists|i: int| first_planned(s, *info, i) && c@ == s[i] && final(self).view()
                    == s.remove(i)
                &&& r is None ==> (forall|i: int| 0 <= i < s.len() ==> dst_plan_spec(#[trigger] s[i], *info) is None)
                    && final(self).view() == s
            }),
    {
        let mut v = self.take_chunks();
        let ghost s = states(v@);
        let mut i: usize = 0;
        assert(s.len() == v@.len());
        while i < v.len()
            invariant
                s == old(self).view(),
                all_wf(v@),
                states(v@) == s,
                s.len() == v@.len(),
                i <= v@.len(),
                info.consistent(),
                forall|j: int| 0 <= j < i ==> dst_plan_spec(#[trigger] s[j], *info) is None,
            decreases v@.len() - i,
        {
            assert(v@[i as int].wf());
            assert(states(v@)[i as int] == v@[i as int]@);
            match plan_dst(&v[i], info) {
                Ok(plan) => {
                    assert(first_planned(s, *info, i as int));
                    let c = take_at(&mut v, i);
                    self.set_chunks(v);
                    assert(c@ == s[i as int] && self.view() == s.remove(i as int));
                    return Some((c, plan));
                },
                Err(()) => {},
            }
            i = i + 1;
        }
        self.set_chunks(v);
        None
    }

    /// Takes out the first chunk in which `try_alloc_remaining_slice_with_layout`
    /// succeeds, after running it there.
    pub fn extract_slice(&mut self, element_layout: &Layout, range_len: Range<usize>)
        -> (r: Option<(Chunk, (usize, usize, usize))>)
        ensures
            ({
                let s = old(self).view();
                let es = element_layout.size_spec() as int;
                let ea = element_layout.align_spec() as int;
                let lo = range_len.start as int;
                let hi = range_len.end as int;
                &&& r matches Some((c, out)) ==> c.wf() && out.0 != 0 && exists|i: int| first_slice(s, es, ea, lo, hi, i)
                    && slice_outcome(s[i], es, ea, range_len.start as int, range_len.end as int)
                    == Some(out) && c@ == after_placing(s[i], Some(out)) && final(self).view()
                    == s.remove(i)
                &&& r is None ==> (forall|i: int| 0 <= i < s.len() ==> slice_outcome(#[trigger] s[i], es, ea, lo, hi) is None)
                    && final(self).view() == s
            }),
    {
        let mut v = self.take_chunks();
        let ghost s = states(v@);
        let ghost es = element_layout.size_spec() as int;
        let ghost ea = element_layout.align_spec() as int;
        let ghost lo = range_len.start as int;
        let ghost hi = range_len.end as int;
        let mut i: usize = 0;
        assert(s.len() == v@.len());
        while i < v.len()
            invariant
                s == old(self).view(),
                es == element_layout.size_spec() as int,
                ea == element_layout.align_spec() as int,
                lo == range_len.start as int,
                hi == range_len.end as int,
                all_wf(v@),
                states(v@) == s,
                s.len() == v@.len(),
                i <= v@.len(),
                forall|j: int| 0 <= j < i ==> slice_outcome(#[trigger] s[j], es, ea, lo, hi) is None,
            decreases v@.len() - i,
        {
            assert(states(v@)[i as int] == v@[i as int]@);
            let mut c = take_at(&mut v, i);
            let ghost before = c@;
            assert(before == s[i as int]);
            match c.try_alloc_remaining_slice_with_layout(element_layout, range_len.start..range_len.end) {
                Some(out) => {
                    proof {
                        assert(first_slice(s, es, ea, lo, hi, i as int));
                    }
                    self.set_chunks(v);
                    assert(before == s[i as int] && self.view() == s.remove(i as int));
                    return Some((c, out));
                },
                None => {
                    put_at(&mut v, i, c);
                    proof {
                        assert(states(v@) =~= s);
                    }
                },
            }
            i = i + 1;
        }
        self.set_chunks(v);
        None
    }

    /// Takes out the first chunk in which `try_alloc_remaining_dst_with_layout`
    /// succeeds, after running it there.
    pub fn extract_dst(&mut self, header_layout: &Layout, element_layout: &Layout, elements_len: Range<usize>)
        -> (r: Option<(Chunk, (usize, usize, usize))>)
        ensures
            ({
                let s = old(self).view();
                let hs = header_layout.size_spec();
                let ha = header_layout.align_spec();
                let es = element_layout.size_spec();
                let ea = element_layout.align_spec();
                let lo = elements_len.start as int;
                let hi = elements_len.end as int;
                &&& r matches Some((c, out)) ==> c.wf() && out.0 != 0 && exists|i: int| first_dst(s, hs, ha, es, ea, lo, hi, i)
                    && dst_outcome(s[i], hs, ha, es, ea, lo, hi) == Some(out) && c@ == after_placing(s[i], Some(out)) && final(self).view() == s.remove(i)
                &&& r is None ==> (forall|i: int| 0 <= i < s.len() ==> dst_outcome(#[trigger] s[i], hs, ha, es, ea, lo, hi) is None)
                    && final(self).view() == s
            }),
    {
        let mut v = self.take_chunks();
        let ghost s = states(v@);
        let ghost hs = header_layout.size_spec();
        let ghost ha = header_layout.align_spec();
        let ghost es = element_layout.size_spec();
        let ghost ea = element_layout.align_spec();
        let ghost lo = elements_len.start as int;
        let ghost hi = elements_len.end as int;
        let mut i: usize = 0;
        assert(s.len() == v@.len());
        while i < v.len()
            invariant
                s == old(self).view(),
                hs == header_layout.size_spec(),
                ha == header_layout.align_spec(),
                es == element_layout.size_spec(),
                ea == element_layout.align_spec(),
                lo == elements_len.start as int,
                hi == elements_len.end as int,
                all_wf(v@),
                states(v@) == s,
                s.len() == v@.len(),
                i <= v@.len(),
                forall|j: int| 0 <= j < i ==> dst_outcome(#[trigger] s[j], hs, ha, es, ea, lo, hi) is None,
            decreases v@.len() - i,
        {
            assert(states(v@)[i as int] == v@[i as int]@);
            let mut c = take_at(&mut v, i);
            let ghost before = c@;
            assert(before == s[i as int]);
            match c.try_alloc_remaining_dst_with_layout(header_layout, element_layout, elements_len.start..elements_len.end) {
                Some(out) => {
                    proof {
                        assert(first_dst(s, hs, ha, es, ea, lo, hi, i as int));
                    }
                    self.set_chunks(v);
                    assert(before == s[i as int] && self.view() == s.remove(i as int));
                    return Some((c, out));
                },
                None => {
                    put_at(&mut v, i, c);
                    proof {
                        assert(states(v@) =~= s);
                    }
                },
            }
            i = i + 1;
        }
        self.set_chunks(v);
        None
    }

    /// Runs `alloc_remaining_slice_with_layout` on the pooled chunks, from the
    /// most recently returned, and takes out the first one where it yields at
    /// least one element. The chunks tried before keep the change it made to
    /// them.
    pub fn extract_remaining(&mut self, element_layout: &Layout, maximum_len: usize)
        -> (r: Option<(Chunk, (usize, usize, usize))>)
        ensures
            ({
                let s = old(self).view();
                let es = element_layout.size_spec() as int;
                let ea = element_layout.align_spec() as int;
                let m = maximum_len as int;
                &&& r matches Some((c, out)) ==> c.wf() && out.0 != 0 && exists|i: int| first_remaining(s, es, ea, m, i)
                    && remaining_outcome(s[i], es, ea, m) == out && c@ == remaining_after(s[i], es, ea, m)
                    && final(self).view() == remaining_after_all(s.take(i), es, ea, m) + s.skip(i + 1)
                &&& r is None ==> (forall|i: int| 0 <= i < s.len() ==> remaining_outcome(#[trigger] s[i], es, ea, m).2 == 0)
                    && final(self).view() == remaining_after_all(s, es, ea, m)
            }),
    {
        let mut v = self.take_chunks();
        let ghost s = states(v@);
        let ghost es = element_layout.size_spec() as int;
        let ghost ea = element_layout.align_spec() as int;
        let ghost m = maximum_len as int;
        let mut i: usize = 0;
        assert(s.len() == v@.len());
        while i < v.len()
            invariant
                s == old(self).view(),
                es == element_layout.size_spec() as int,
                ea == element_layout.align_spec() as int,
                m == maximum_len as int,
                all_wf(v@),
                v@.len() == s.len(),
                i <= v@.len(),
                states(v@) == remaining_after_all(s.take(i as int), es, ea, m) + s.skip(i as int),
                forall|j: int| 0 <= j < i ==> remaining_outcome(#[trigger] s[j], es, ea, m).2 == 0,
            decreases v@.len() - i,
        {
            assert(states(v@)[i as int] == v@[i as int]@);
            let mut c = take_at(&mut v, i);
            proof {
                assert(states(v@).insert(i as int, c@) =~= remaining_after_all(s.take(i as int), es, ea, m) + s.skip(i as int));
                assert(c@ == s[i as int]);
            }
            let out = c.alloc_remaining_slice_with_layout(element_layout, maximum_len);
            if out.2 > 0 {
                proof {
                    assert(first_remaining(s, es, ea, m, i as int));
                    assert(states(v@) =~= remaining_after_all(s.take(i as int), es, ea, m) + s.skip(i + 1));
                }
                self.set_chunks(v);
                return Some((c, out));
            }
            put_at(&mut v, i, c);
            proof {
                assert(states(v@) =~= remaining_after_all(s.take(i + 1), es, ea, m) + s.skip(i + 1));
            }
            i = i + 1;
        }
        proof {
            assert(s.take(s.len() as int) =~= s);
            assert(s.skip(s.len() as int) =~= Seq::<ChunkState>::empty());
            assert(states(v@) =~= remaining_after_all(s, es, ea, m));
        }
        self.set_chunks(v);
        None
    }

    /// Fills the pooled chunks from `items`, from the most recently
    /// returned, and takes out the first one where that is accepted: where
    /// at least one element fits below the aligned bump pointer. `Err` gives
    /// the items back when no chunk accepts.
    pub fn extract_filled<T>(&mut self, items: Vec<T>, inserting_order: InsertingOrder)
        -> (r: Result<(Chunk, (Box<Vec<T>>, Option<Vec<T>>)), Vec<T>>)
        requires
            vstd::layout::size_of::<T>() > 0,
        ensures
            ({
                let s = old(self).view();
                let size = vstd::layout::size_of::<T>() as int;
                let align = vstd::layout::align_of::<T>() as int;
                &&& r matches Ok((c, (b, rest))) ==> c.wf() && exists|i: int| first_fill(s, size, align, i)
                    && fill_result(s[i], items@, inserting_order, c@, b, rest) && final(self).view()
                    == s.remove(i)
                &&& r matches Err(back) ==> back@ == items@ && (forall|i: int| 0 <= i < s.len()
                    ==> !fill_accepts(#[trigger] s[i], size, align)) && final(self).view() == s
            }),
    {
        let mut v = self.take_chunks();
        let ghost s = states(v@);
        let ghost size = vstd::layout::size_of::<T>() as int;
        let ghost align = vstd::layout::align_of::<T>() as int;
        let ghost orig = items@;
        let mut pending = items;
        let mut i: usize = 0;
        assert(s.len() == v@.len());
        while i < v.len()
            invariant
                s == old(self).view(),
                size == vstd::layout::size_of::<T>() as int,
                align == vstd::layout::align_of::<T>() as int,
                size > 0,
                pending@ == orig,
                orig == items@,
                all_wf(v@),
                states(v@) == s,
                s.len() == v@.len(),
                i <= v@.len(),
                forall|j: int| 0 <= j < i ==> !fill_accepts(#[trigger] s[j], size, align),
            decreases v@.len() - i,
        {
            assert(states(v@)[i as int] == v@[i as int]@);
            let mut c = take_at(&mut v, i);
            let ghost before = c@;
            assert(before == s[i as int]);
            let (b, rest) = c.alloc_remaining_slice_from_iter_with_order(pending, inserting_order);
            if b.len() == 0 && rest.is_some() {
                proof {
                    if crate::chunk::aligned_bump(before, align) >= before.start {
                        vstd::arithmetic::div_mod::lemma_div_pos_is_pos(
                            crate::chunk::aligned_bump(before, align) - before.start, size);
                    }
                }
                pending = match rest {
                    Some(back) => back,
                    None => Vec::new(),
                };
                proof {
                    assert(pending@ =~= orig);
                }
                put_at(&mut v, i, c);
                proof {
                    assert(states(v@) =~= s);
                }
            } else {
                proof {
                    assert(first_fill(s, size, align, i as int));
                }
                self.set_chunks(v);
                assert(before == s[i as int] && self.view() == s.remove(i as int));
                assert(fill_result(s[i as int], orig, inserting_order, c@, b, rest));
                return Ok((c, (b, rest)));
            }
            i = i + 1;
        }
        self.set_chunks(v);
        Err(pending)
    }
}

/// Chunks given back are reused: once a local arena's chain is stored, each
/// of its chunks waits in the pool with all its storage free, so a block
/// that fits in such a chunk is found by `extract_chunk`, which answers
/// `None` only when no pooled chunk has room.
pub proof fn lemma_given_back_reused(chain: Seq<ChunkState>, before: Seq<ChunkState>, k: int, size: int, align: int)
    requires
        0 <= k < chain.len(),
        chain[k].wf(),
        fits(chain[k].cleaned(), size, align),
    ensures
        ({
            let after = chain.map_values(|c: ChunkState| c.cleaned()) + before;
            &&& after[k] == chain[k].cleaned()
            &&& after[k].remaining() == chain[k].len
            &&& exists|i: int| 0 <= i < after.len() && fits(#[trigger] after[i], size, align)
        }),
{
    let after = chain.map_values(|c: ChunkState| c.cleaned()) + before;
    assert(after[k] == chain[k].cleaned());
    assert(fits(after[k], size, align));
}

/// `parking_lot::RawMutex`, the lock of a `parking_lot::Mutex`.
#[verifier::external_type_specification]
#[verifier::external_body]
pub struct ExRawMutex(parking_lot::RawMutex);

/// `lock_api::Mutex`, of which `parking_lot::Mutex` is an instance.
#[verifier::external_type_specification]
#[verifier::external_body]
#[verifier::reject_recursive_types(R)]
#[verifier::reject_recursive_types(T)]
pub struct ExMutex<R, T: ?Sized>(lock_api::Mutex<R, T>);

/// The lock held on a pool; dropping it unlocks the pool.
#[verifier::external_body]
pub struct PoolGuard<'a> {
    guard: parking_lot::MutexGuard<'a, ChunkPool>,
}

/// Calls `parking_lot::Mutex::new`: a new mutex holding `pool`.
#[verifier::external_body]
fn new_pool_mutex(pool: ChunkPool) -> (r: parking_lot::Mutex<ChunkPool>) {
    parking_lot::Mutex::new(pool)
}

/// Calls `parking_lot::Mutex::lock`: blocks until the pool is locked.
#[verifier::external_body]
fn lock_pool(m: &parking_lot::Mutex<ChunkPool>) -> (r: PoolGuard<'_>) {
    PoolGuard { guard: m.lock() }
}

/// Dereferences the guard: the pool it locks. Other threads may have changed
/// the pool since it was last locked here, so nothing is claimed about its
/// content; the pool's own invariant still holds.
#[verifier::external_body]
fn locked_pool<'a, 'b>(g: &'a mut PoolGuard<'b>) -> (r: &'a mut ChunkPool) {
    &mut *g.guard
}

/// The builder run's answer inside what
/// [SharedArena::try_alloc_remaining_dst_with_builder] returns.
pub open spec fn run_result(
    r: Result<(Chunk, (Box<Vec<u8>>, WriteElementState)), CancellationError>,
) -> Result<(Box<Vec<u8>>, WriteElementState), CancellationError> {
    match r {
        Ok((_, out)) => Ok(out),
        Err(e) => Err(e),
    }
}

/// A shared, thread-safe pool of chunks from which local arenas are made.
///
/// Clones share the same pool.
pub struct SharedArena {
    inner: Arc<parking_lot::Mutex<ChunkPool>>,
}

impl Default for SharedArena {
    /// A shared arena with an empty pool.
    fn default() -> (r: SharedArena) {
        SharedArena::new()
    }
}

/// Calls `Arc::clone`: another pointer to the same allocation, hence to the
/// same pool.
#[verifier::external_body]
fn share_pool(pool: &Arc<parking_lot::Mutex<ChunkPool>>) -> (r: Arc<parking_lot::Mutex<ChunkPool>>)
    ensures
        r == *pool,
{
    Arc::clone(pool)
}

impl Clone for SharedArena {
    /// Another handle on the same pool.
    fn clone(&self) -> (r: SharedArena)
        ensures
            r == *self,
    {
        SharedArena { inner: share_pool(&self.inner) }
    }
}

impl SharedArena {
    /// A shared arena with an empty pool.
    pub fn new() -> (r: SharedArena) {
        SharedArena { inner: Arc::new(new_pool_mutex(ChunkPool::new())) }
    }

    /// Number of chunks waiting in the pool now.
    pub fn pooled_chunks(&self) -> (r: usize) {
        let mut g = lock_pool(&self.inner);
        let pool = locked_pool(&mut g);
        pool.len()
    }

    /// A chunk in which a block of `minimum_layout` may be placed: the first
    /// pooled one where it fits, else a new one.
    pub fn get_or_make_chunk(&self, minimum_layout: &Layout, recommended_size: usize)
        -> (r: Result<Chunk, AllocError>)
        ensures
            ({
                let size = minimum_layout.size_spec() as int;
                let align = minimum_layout.align_spec() as int;
                let min = min_chunk_size_spec(size, align);
                let first = max3(min, MINIMUM_ALLOCATED_SIZE as int, recommended_size as int);
                &&& r matches Ok(c) ==> c.wf() && (fits(c@, size, align) || (c@ == fresh_chunk(c@.len)
                    && min <= c@.len <= first))
                &&& r == Err::<Chunk, AllocError>(AllocError::InvalidLayout) <==> !chunk_size_ok(min)
            }),
    {
        let align = minimum_layout.align();
        {
            let mut g = lock_pool(&self.inner);
            let pool = locked_pool(&mut g);
            let ghost s = pool.view();
            match pool.extract_chunk(minimum_layout) {
                Some(c) => {
                    proof {
                        crate::chunk::lemma_fits_size_ok(
                            c@,
                            minimum_layout.size_spec() as int,
                            align as int,
                        );
                    }
                    return Ok(c);
                },
                None => {},
            }
        }
        make_chunk(minimum_layout, recommended_size)
    }

    /// Gives a local arena's chunks, current first, back to the pool.
    pub fn store_chunks(&self, chain: Vec<Chunk>)
        requires
            all_wf(chain@),
    {
        let mut g = lock_pool(&self.inner);
        let pool = locked_pool(&mut g);
        pool.store_chunks(chain);
    }

    /// Runs a builder in the first pooled chunk that has a plan for it. When
    /// the builder cancels, the chunk, as it was, goes back in front of the
    /// pool; the pool sits behind a lock, so no contract speaks of its
    /// chunks.
    /// `CancelledBeforeWrite` when no pooled chunk has a plan.
    pub fn try_alloc_remaining_dst_with_builder<B: BuilderDST>(&self, builder: &mut B, info: &DSTInfo)
        -> (r: Result<(Chunk, (Box<Vec<u8>>, WriteElementState)), CancellationError>)
        requires
            info.consistent(),
        ensures
            r matches Ok((c, out)) ==> c.wf(),
            r matches Ok((c, out)) ==> exists|s0: ChunkState, plan: DstPlan|
                s0.wf() && dst_plan_spec(s0, *info) == Some(plan) && #[trigger] finish_outcome(
                    s0,
                    *info,
                    plan,
                    Ok::<(Box<Vec<u8>>, WriteElementState), CancellationError>(out),
                    c@,
                ),
            ran_as(*old(builder), *final(builder), info.header_layout, info.element_layout, run_result(r)),
            r == Err::<(Chunk, (Box<Vec<u8>>, WriteElementState)), CancellationError>(
                CancellationError::CancelledBeforeWrite,
            ) ==> *final(builder) == *old(builder),
    {
        let found = {
            let mut g = lock_pool(&self.inner);
            let pool = locked_pool(&mut g);
            pool.extract_planned(info)
        };
        let (mut chunk, plan) = match found {
            Some(p) => p,
            None => {
                proof {
                    crate::dst::lemma_ran_untouched(*builder, info.header_layout, info.element_layout);
                }
                return Err(CancellationError::CancelledBeforeWrite);
            },
        };
        let ghost s0 = chunk@;
        let res = finish(&mut chunk, plan, info, builder);
        match res {
            Ok(out) => {
                let ghost cv = chunk@;
                let r = Ok((chunk, out));
                proof {
                    assert(r->Ok_0.0@ == cv);
                    assert(r->Ok_0.1 == out);
                    assert(finish_outcome(s0, *info, plan, Ok::<(Box<Vec<u8>>, WriteElementState), CancellationError>(r->Ok_0.1), r->Ok_0.0@));
                }
                r
            },
            Err(e) => {
                let mut g = lock_pool(&self.inner);
                let pool = locked_pool(&mut g);
                pool.push_front(chunk);
                Err(e)
            },
        }
    }
    /// Runs `try_alloc_remaining_slice_with_layout` in the first pooled chunk
    /// where it succeeds and takes that chunk out.
    pub fn try_alloc_remaining_slice_with_layout(&self, element_layout: &Layout, range_len: Range<usize>)
        -> (r: Option<(Chunk, (usize, usize, usize))>)
        ensures
            r matches Some((c, out)) ==> c.wf() && out.0 != 0 && exists|s0: ChunkState| s0.wf() && #[trigger] slice_outcome(
                s0,
                element_layout.size_spec() as int,
                element_layout.align_spec() as int,
                range_len.start as int,
                range_len.end as int,
            ) == Some(out) && c@ == after_placing(s0, Some(out)),
    {
        let mut g = lock_pool(&self.inner);
        let pool = locked_pool(&mut g);
        pool.view_is_wf();
        pool.extract_slice(element_layout, range_len)
    }

    /// Runs `try_alloc_remaining_dst_with_layout` in the first pooled chunk
    /// where it succeeds and takes that chunk out.
    pub fn try_alloc_remaining_dst_layout(
        &self,
        header_layout: &Layout,
        element_layout: &Layout,
        elements_len: Range<usize>,
    ) -> (r: Option<(Chunk, (usize, usize, usize))>)
        ensures
            r matches Some((c, out)) ==> c.wf() && out.0 != 0 && exists|s0: ChunkState| s0.wf() && #[trigger] dst_outcome(
                s0,
                header_layout.size_spec(),
                header_layout.align_spec(),
                element_layout.size_spec(),
                element_layout.align_spec(),
                elements_len.start as int,
                elements_len.end as int,
            ) == Some(out) && c@ == after_placing(s0, Some(out)),
    {
        let mut g = lock_pool(&self.inner);
        let pool = locked_pool(&mut g);
        pool.view_is_wf();
        pool.extract_dst(header_layout, element_layout, elements_len)
    }

    /// Runs `alloc_remaining_slice_with_layout` on the pooled chunks and takes
    /// out the first one where it yields at least one element.
    pub fn alloc_remaining_slice_with_layout(&self, element_layout: &Layout, maximum_len: usize)
        -> (r: Option<(Chunk, (usize, usize, usize))>)
        ensures
            r matches Some((c, out)) ==> c.wf() && out.2 > 0 && out.0 != 0 && exists|s0: ChunkState| s0.wf() && #[trigger] remaining_outcome(
                s0,
                element_layout.size_spec() as int,
                element_layout.align_spec() as int,
                maximum_len as int,
            ) == out && c@ == remaining_after(
                s0,
                element_layout.size_spec() as int,
                element_layout.align_spec() as int,
                maximum_len as int,
            ),
    {
        let mut g = lock_pool(&self.inner);
        let pool = locked_pool(&mut g);
        pool.view_is_wf();
        pool.extract_remaining(element_layout, maximum_len)
    }

    /// Fills the first pooled chunk that accepts `items` and takes it out;
    /// `Err` gives the items back when none does.
    pub fn alloc_remaining_slice_from_iter_with_order<T>(&self, items: Vec<T>, inserting_order: InsertingOrder)
        -> (r: Result<(Chunk, (Box<Vec<T>>, Option<Vec<T>>)), Vec<T>>)
        requires
            vstd::layout::size_of::<T>() > 0,
        ensures
            r matches Ok((c, (b, rest))) ==> c.wf() && exists|s0: ChunkState| s0.wf() && #[trigger] fill_result(
                s0,
                items@,
                inserting_order,
                c@,
                b,
                rest,
            ) && fill_accepts(s0, vstd::layout::size_of::<T>() as int, vstd::layout::align_of::<T>() as int),
            r matches Err(back) ==> back@ == items@,
    {
        let mut g = lock_pool(&self.inner);
        let pool = locked_pool(&mut g);
        pool.view_is_wf();
        pool.extract_filled(items, inserting_order)
    }
}


} // verus!
