//! The interface every arena offers, with the allocations built on top of
//! the two primitive ones: a block of a given layout, and a dynamically
//! sized value driven by a builder.
use vstd::prelude::*;
use vstd::string::StrSliceExecFns;
use vstd::string::StringSliceAdditionalSpecFns;
use crate::layout::{Layout, valid_layout_int};
use crate::boxed::{Box, Uninit};
use crate::local_arena::{
    LocalArena, layout_allocated, slice_allocated, dst_allocated, remaining_allocated, items_allocated, built_in,
    built_with_layouts, dst_run, lemma_run_len,
};
use crate::dst::{DSTInfo, ran};
use crate::chunk::{byte_layout, reverse_vec, dst_offset, DANGLING};
use crate::{AllocError, AllocationInfo, BuilderCalls, BuilderDST, BuilderShape, CancellationError, InsertingOrder, WriteElementState, protocol_followed};
use core::ops::Range;

verus! {

/// Builder of a header followed by a run of elements of no content, between
/// `lo` and `hi` of them. It counts its calls.
pub struct SpanBuilder {
    header: Layout,
    element: Layout,
    lo: usize,
    hi: usize,
    counter: usize,
    needs_min: bool,
    calls: Ghost<BuilderCalls>,
}

impl SpanBuilder {
    /// Each accepted element is counted, never more than `hi`; a finalizer
    /// that accepted saw at least `lo` of them when the minimum counts.
    #[verifier::type_invariant]
    spec fn counted(self) -> bool {
        &&& self.counter == self.calls@.written
        &&& self.counter <= self.hi
        &&& (self.needs_min && self.calls@.finalized_accepted > 0) ==> self.counter >= self.lo
    }
}

/// What a run that began with no call counted tells of a span builder: a
/// value it built has at most `hi` elements, and at least `lo` when the
/// minimum counts.
proof fn lemma_span_built(b: SpanBuilder, built: BuiltDst)
    requires
        b.counted(),
        protocol_followed(BuilderCalls::none(), b.calls@, built),
    ensures
        built matches Ok((_, st)) ==> b.shape().min <= st.count_spec() <= b.shape().max,
{
    if let Ok((_, st)) = built {
        assert(b.calls@.written == st.count_spec());
        assert(b.calls@.finalized_accepted == 1);
    }
}

impl BuilderDST for SpanBuilder {
    open spec fn counts_calls(&self) -> bool {
        true
    }

    closed spec fn calls(&self) -> BuilderCalls {
        self.calls@
    }

    closed spec fn shape(&self) -> BuilderShape {
        BuilderShape {
            header: self.header,
            element: self.element,
            order: InsertingOrder::Unspecified,
            min: if self.needs_min { self.lo as nat } else { 0 },
            max: self.hi as nat,
        }
    }

    fn header_layout(&self) -> (r: Layout) {
        self.header
    }

    fn element_layout(&self) -> (r: Layout) {
        self.element
    }

    fn elements_hint(&self) -> (r: (usize, Option<usize>))
        ensures
            r == (self.shape().min as usize, Some(self.shape().max as usize)),
    {
        (if self.needs_min { self.lo } else { 0 }, Some(self.hi))
    }

    fn inserting_order(&self) -> (r: InsertingOrder)
        ensures
            r == InsertingOrder::Unspecified,
    {
        InsertingOrder::Unspecified
    }

    fn write_header(&mut self, memory: &mut Vec<u8>) -> (r: bool)
        ensures
            r,
            final(memory)@ == old(memory)@,
    {
        proof {
            use_type_invariant(&*self);
            self.calls@ = self.calls@.header(true).log_header(memory@, memory@);
        }
        true
    }

    fn write_element(&mut self, memory: &mut Vec<u8>) -> (r: bool)
        ensures
            r == (old(self).calls().written < old(self).shape().max),
            final(memory)@ == old(memory)@,
    {
        proof {
            use_type_invariant(&*self);
        }
        if self.counter >= self.hi {
            proof {
                self.calls@ = self.calls@.element(false).log_element(false, memory@, memory@);
            }
            false
        } else {
            let ghost next = self.calls@.element(true).log_element(true, memory@, memory@);
            *self = SpanBuilder {
                header: self.header,
                element: self.element,
                lo: self.lo,
                hi: self.hi,
                counter: self.counter + 1,
                needs_min: self.needs_min,
                calls: Ghost(next),
            };
            true
        }
    }

    fn finalizer(&mut self, memory: &mut Vec<u8>) -> (r: bool)
        ensures
            r == (old(self).calls().written >= old(self).shape().min),
            final(memory)@ == old(memory)@,
    {
        proof {
            use_type_invariant(&*self);
        }
        let r = !self.needs_min || self.counter >= self.lo;
        proof {
            self.calls@ = self.calls@.finalize(r).log_finalizer(memory@, memory@);
        }
        r
    }

    fn drop_header(&mut self, memory: &mut Vec<u8>) {
        proof {
            use_type_invariant(&*self);
            self.calls@ = self.calls@.drop_header().log_header_drop(memory@);
        }
    }

    fn drop_element(&mut self, memory: &mut Vec<u8>) {
        proof {
            use_type_invariant(&*self);
            self.calls@ = self.calls@.drop_elements(1).log_element_drop(memory@);
        }
    }
}

/// Builder of a run of elements of `T`, one for each item still to place.
/// It counts its calls.
pub struct ItemsBuilder<T> {
    header: Layout,
    element: Layout,
    len: usize,
    /// Items not yet written.
    remaining: usize,
    order: InsertingOrder,
    calls: Ghost<BuilderCalls>,
    items: core::marker::PhantomData<T>,
}

impl<T> ItemsBuilder<T> {
    /// Every accepted element used up one item; a refusal came only when
    /// none was left.
    #[verifier::type_invariant]
    spec fn counted(self) -> bool {
        &&& self.calls@.written + self.remaining == self.len
        &&& self.calls@.stopped > 0 ==> self.remaining == 0
    }

    /// A builder for `len` items laid out in `order`.
    pub fn new(len: usize, order: InsertingOrder) -> (r: ItemsBuilder<T>)
        ensures
            r.calls() == BuilderCalls::none(),
            r.shape().header.size_spec() == 0 && r.shape().header.align_spec() == 1,
            r.shape().element.size_spec() == vstd::layout::size_of::<T>(),
            r.shape().element.align_spec() == vstd::layout::align_of::<T>(),
            r.shape().order == order && r.shape().min == 0 && r.shape().max == len,
    {
        ItemsBuilder {
            header: Layout::unit(),
            element: Layout::new::<T>(),
            len,
            remaining: len,
            order,
            calls: Ghost(BuilderCalls::none()),
            items: core::marker::PhantomData,
        }
    }

}

impl<T> BuilderDST for ItemsBuilder<T> {
    open spec fn counts_calls(&self) -> bool {
        true
    }

    closed spec fn calls(&self) -> BuilderCalls {
        self.calls@
    }

    closed spec fn shape(&self) -> BuilderShape {
        BuilderShape { header: self.header, element: self.element, order: self.order, min: 0, max: self.len as nat }
    }

    fn header_layout(&self) -> (r: Layout) {
        self.header
    }

    fn element_layout(&self) -> (r: Layout) {
        self.element
    }

    fn elements_hint(&self) -> (r: (usize, Option<usize>)) {
        (0, Some(self.remaining))
    }

    fn inserting_order(&self) -> (r: InsertingOrder) {
        self.order
    }

    fn write_header(&mut self, memory: &mut Vec<u8>) -> (r: bool)
        ensures
            r,
            final(memory)@ == old(memory)@,
    {
        proof {
            use_type_invariant(&*self);
            self.calls@ = self.calls@.header(true).log_header(memory@, memory@);
        }
        true
    }

    fn write_element(&mut self, memory: &mut Vec<u8>) -> (r: bool)
        ensures
            final(memory)@ == old(memory)@,
    {
        proof {
            use_type_invariant(&*self);
        }
        if self.remaining == 0 {
            proof {
                self.calls@ = self.calls@.element(false).log_element(false, memory@, memory@);
            }
            false
        } else {
            let ghost next = self.calls@.element(true).log_element(true, memory@, memory@);
            *self = ItemsBuilder {
                header: self.header,
                element: self.element,
                len: self.len,
                remaining: self.remaining - 1,
                order: self.order,
                calls: Ghost(next),
                items: core::marker::PhantomData,
            };
            true
        }
    }

    fn finalizer(&mut self, memory: &mut Vec<u8>) -> (r: bool)
        ensures
            r,
            final(memory)@ == old(memory)@,
    {
        proof {
            use_type_invariant(&*self);
            self.calls@ = self.calls@.finalize(true).log_finalizer(memory@, memory@);
        }
        true
    }

    fn drop_header(&mut self, memory: &mut Vec<u8>) {
        proof {
            use_type_invariant(&*self);
            self.calls@ = self.calls@.drop_header().log_header_drop(memory@);
        }
    }

    fn drop_element(&mut self, memory: &mut Vec<u8>) {
        proof {
            use_type_invariant(&*self);
            self.calls@ = self.calls@.drop_elements(1).log_element_drop(memory@);
        }
    }
}

impl SpanBuilder {
    /// The builder [Arena::try_alloc_remaining_dst_with_layout] hands over:
    /// a header of `header` and between `lo` and `hi` elements of `element`.
    pub fn for_dst(header: Layout, element: Layout, lo: usize, hi: usize) -> (r: SpanBuilder)
        ensures
            r.shape() == (BuilderShape {
                header,
                element,
                order: InsertingOrder::Unspecified,
                min: lo as nat,
                max: hi as nat,
            }),
            r.calls() == BuilderCalls::none(),
    {
        SpanBuilder { header, element, lo, hi, counter: 0, needs_min: true, calls: Ghost(BuilderCalls::none()) }
    }

    /// The builder for a slice of between `lo` and `hi` elements of
    /// `element`: no header.
    pub fn for_slice(element: Layout, lo: usize, hi: usize) -> (r: SpanBuilder)
        ensures
            r.shape().header.size_spec() == 0 && r.shape().header.align_spec() == 1,
            r.shape().element == element && r.shape().min == lo && r.shape().max == hi,
            r.calls() == BuilderCalls::none(),
    {
        SpanBuilder {
            header: Layout::unit(),
            element,
            lo,
            hi,
            counter: 0,
            needs_min: true,
            calls: Ghost(BuilderCalls::none()),
        }
    }

    /// The builder for a slice of as many elements of `element` as fit, at
    /// most `hi`, possibly none: no header, no minimum.
    pub fn for_remaining(element: Layout, hi: usize) -> (r: SpanBuilder)
        ensures
            r.shape().header.size_spec() == 0 && r.shape().header.align_spec() == 1,
            r.shape().element == element && r.shape().min == 0 && r.shape().max == hi,
            r.calls() == BuilderCalls::none(),
    {
        SpanBuilder {
            header: Layout::unit(),
            element,
            lo: 0,
            hi,
            counter: 0,
            needs_min: false,
            calls: Ghost(BuilderCalls::none()),
        }
    }
}

/// The bounds of a range, smaller first.
pub open spec fn ordered_range(r: Range<usize>) -> (usize, usize) {
    if r.start <= r.end {
        (r.start, r.end)
    } else {
        (r.end, r.start)
    }
}

/// What a builder run returned: the allocation and the element state, or
/// why it was cancelled.
pub type BuiltDst = Result<(Box<Vec<u8>>, WriteElementState), CancellationError>;

/// The answer of [Arena::try_alloc_remaining_dst_with_layout] and
/// [Arena::try_alloc_remaining_slice_with_layout] for what the builder run
/// returned: the allocation and its element count when the count lies in
/// `lo..=hi`, else `None`.
pub fn span_in_range(built: BuiltDst, lo: usize, hi: usize) -> (r: Option<(Box<Uninit>, usize)>)
    ensures
        match built {
            Ok((b, st)) => if lo <= st.count_spec() <= hi {
                r matches Some((a, n)) && a.address() == b.address() && a.content().len == b.content()@.len()
                    && n == st.count_spec()
            } else {
                r is None
            },
            Err(_) => r is None,
        },
{
    match built {
        Ok((b, st)) => {
            let n = st.count();
            if n < lo || n > hi {
                return None;
            }
            Some((Box::from_parts(Box::as_ptr(&b), Uninit { len: b.len() }), n))
        },
        Err(_) => None,
    }
}

/// The answer of [Arena::alloc_remaining_slice_with_layout] for what the
/// builder run returned: the allocation and its element count, or an empty
/// allocation.
pub fn span_or_empty(built: BuiltDst) -> (r: (Box<Uninit>, usize))
    ensures
        match built {
            Ok((b, st)) => r.0.address() == b.address() && r.0.content().len == b.content()@.len() && r.1
                == st.count_spec(),
            Err(_) => r.0.address() == DANGLING && r.0.content().len == 0 && r.1 == 0,
        },
{
    match built {
        Ok((b, st)) => (Box::from_parts(Box::as_ptr(&b), Uninit { len: b.len() }), st.count()),
        Err(_) => (Box::from_parts(DANGLING, Uninit { len: 0 }), 0),
    }
}

/// The answer of [Arena::try_alloc_remaining_slice] for what the builder
/// run returned: as many uninitialized values as elements were written.
pub fn values_or_none(built: BuiltDst) -> (r: Option<Box<Uninit>>)
    ensures
        match built {
            Ok((b, st)) => r matches Some(a) && a.address() == b.address() && a.content().len == st.count_spec(),
            Err(_) => r is None,
        },
{
    match built {
        Ok((b, st)) => Some(Box::from_parts(Box::as_ptr(&b), Uninit { len: st.count() })),
        Err(_) => None,
    }
}

/// The answer of [Arena::alloc_slice_from_remaining] for what the builder
/// run returned: as many uninitialized values as elements were written, or
/// none at `align`.
pub fn values_or_empty(built: BuiltDst, align: usize) -> (r: Box<Uninit>)
    requires
        align != 0,
    ensures
        match built {
            Ok((b, st)) => r.address() == b.address() && r.content().len == st.count_spec(),
            Err(_) => r.address() == align && r.content().len == 0,
        },
{
    match built {
        Ok((b, st)) => Box::from_parts(Box::as_ptr(&b), Uninit { len: st.count() }),
        Err(_) => Box::from_parts(align, Uninit { len: 0 }),
    }
}

/// Whether the builder wrote elements until it had none left.
pub open spec fn ran_out(st: WriteElementState) -> bool {
    st matches WriteElementState::Started { completed: true, .. }
}

/// `items` in `order`: as they are for [InsertingOrder::Original], reversed
/// otherwise.
pub open spec fn arranged<T>(items: Seq<T>, order: InsertingOrder) -> Seq<T> {
    if order == InsertingOrder::Original {
        items
    } else {
        items.reverse()
    }
}

/// The slice `content` and the leftover `rest` come from `items`: a first
/// part of them, laid out in `order`, and the others in their order; with no
/// leftover, all of them went in.
pub open spec fn split_off<T>(items: Seq<T>, order: InsertingOrder, content: Seq<T>, rest: Option<Vec<T>>) -> bool {
    exists|n: int|
        0 <= n <= items.len() && #[trigger] arranged(items.take(n), order) == content && (rest is None ==> n
            == items.len()) && (rest matches Some(v) ==> v@ == items.skip(n))
}

/// What [filled_from] answers for the builder run `built` and `items`.
pub open spec fn fill_from<T>(built: BuiltDst, items: Seq<T>, order: InsertingOrder, align: usize, r: (Box<Vec<T>>, Option<Vec<T>>)) -> bool {
    match built {
        Ok((b, st)) => {
            let n = if st.count_spec() < items.len() { st.count_spec() as int } else { items.len() as int };
            &&& r.0.address() == b.address()
            &&& r.0.content()@ == arranged(items.take(n), order)
            &&& (ran_out(st) && n == items.len()) ==> r.1 is None
            &&& !(ran_out(st) && n == items.len()) ==> (r.1 matches Some(v) && v@ == items.skip(n))
        },
        Err(_) => r.0.address() == align && r.0.content()@.len() == 0 && (r.1 matches Some(v) && v@ == items),
    }
}

/// The answer of [Arena::alloc_remaining_slice_from_iter_with_order] for
/// what the builder run returned: as many of `items` as elements were
/// written, laid out in `order`, and the items left unless the builder ran
/// out of them with all placed. When the run was cancelled, no slice (an
/// empty one at `align`) and all the items back, in their order.
pub fn filled_from<T>(built: BuiltDst, items: Vec<T>, order: InsertingOrder, align: usize)
    -> (r: (Box<Vec<T>>, Option<Vec<T>>))
    requires
        align != 0,
    ensures
        split_off(items@, order, r.0.content()@, r.1),
        fill_from(built, items@, order, align, r),
{
    let ghost orig = items@;
    match built {
        Ok((b, st)) => {
            let count = st.count();
            let len = items.len();
            let n = if count < len { count } else { len };
            let mut rev = reverse_vec(items);
            let mut taken: Vec<T> = Vec::new();
            while taken.len() < n
                invariant
                    n <= orig.len(),
                    taken@.len() <= n,
                    taken@ == orig.take(taken@.len() as int),
                    rev@.len() + taken@.len() == orig.len(),
                    forall|i: int| 0 <= i < rev@.len() ==> rev@[i] == orig[orig.len() - 1 - i],
                decreases n - taken@.len(),
            {
                let ghost w = taken@.len() as int;
                let x = rev.pop().unwrap();
                taken.push(x);
                assert(taken@ =~= orig.take(w + 1));
            }
            let rest = reverse_vec(rev);
            proof {
                assert(rest@ =~= orig.skip(n as int));
            }
            let content = match order {
                InsertingOrder::Original => taken,
                _ => reverse_vec(taken),
            };
            let done = match st {
                WriteElementState::Started { count: _, completed: true } => n == len,
                _ => false,
            };
            let remaining = if done { None } else { Some(rest) };
            proof {
                assert(arranged(orig.take(n as int), order) == content@);
            }
            (Box::from_parts(Box::as_ptr(&b), content), remaining)
        },
        Err(_) => {
            proof {
                assert(orig.take(0) =~= Seq::<T>::empty());
                assert(orig.skip(0) =~= orig);
                assert(arranged(orig.take(0), order) =~= Seq::<T>::empty());
            }
            (Box::from_parts(align, Vec::new()), Some(items))
        },
    }
}

/// A value built by a builder with the header and element layouts `h` and
/// `e` is as long as the header, padded to the elements' alignment, and one
/// element per accepted call.
pub open spec fn built_len(h: Layout, e: Layout, r: BuiltDst) -> bool {
    r matches Ok((b, st)) ==> b.content()@.len() == dst_offset(h.size_spec(), e.align_spec()) + st.count_spec()
        * e.size_spec()
}

/// `r` answers the builder run `r0` with the allocation and its element
/// count, or `None` when the run was cancelled.
pub open spec fn span_from(r0: BuiltDst, r: Option<(Box<Uninit>, usize)>) -> bool {
    match r0 {
        Ok((b, st)) => r matches Some((a, n)) && a.address() == b.address() && n == st.count_spec(),
        Err(_) => r is None,
    }
}

/// `r` answers the builder run `r0` with the allocation and its element
/// count, or an empty allocation when the run was cancelled.
pub open spec fn span_or_empty_from(r0: BuiltDst, r: (Box<Uninit>, usize)) -> bool {
    match r0 {
        Ok((b, st)) => r.0.address() == b.address() && r.1 == st.count_spec(),
        Err(_) => r.0.address() == DANGLING && r.1 == 0,
    }
}

/// `r` answers the builder run `r0` with as many values as elements were
/// written, or `None` when the run was cancelled.
pub open spec fn values_from(r0: BuiltDst, r: Option<Box<Uninit>>) -> bool {
    match r0 {
        Ok((b, st)) => r matches Some(a) && a.address() == b.address() && a.content().len == st.count_spec(),
        Err(_) => r is None,
    }
}

/// `r` answers the builder run `r0` with as many values as elements were
/// written, or none at `align` when the run was cancelled.
pub open spec fn values_or_empty_from(r0: BuiltDst, align: usize, r: Box<Uninit>) -> bool {
    match r0 {
        Ok((b, st)) => r.address() == b.address() && r.content().len == st.count_spec(),
        Err(_) => r.address() == align && r.content().len == 0,
    }
}

/// The shape of the builder that the span methods hand over: a header of
/// `header`, elements of `element`, between `min` and `max` of them.
pub open spec fn span_shape(header: Layout, element: Layout, min: nat, max: nat) -> BuilderShape {
    BuilderShape { header, element, order: InsertingOrder::Unspecified, min, max }
}

/// `r` is what [Arena::try_alloc_layout] returned as `r0`, or a box at the
/// same address.
pub open spec fn passed_on<X>(r0: Result<Box<Uninit>, AllocError>, r: Result<Box<X>, AllocError>) -> bool {
    match r0 {
        Ok(b0) => r matches Ok(b) && b.address() == b0.address(),
        Err(e) => r == Err::<Box<X>, AllocError>(e),
    }
}

/// An arena.
///
/// Allocations of no size may share their address. An arena keeps its
/// invariant `inv` across all operations.
pub trait Arena {
    /// The arena's invariant.
    spec fn inv(&self) -> bool;

    /// Bytes free in the current chunk.
    spec fn capacity_spec(&self) -> nat;

    /// What [Arena::try_alloc_layout] does: from `pre` to `post`, for
    /// `layout`, returning `r`.
    spec fn allocated(pre: &Self, post: &Self, layout: Layout, r: Result<Box<Uninit>, AllocError>) -> bool;

    /// What [Arena::try_alloc_remaining_dst_with_builder] does with a builder
    /// of shape `shape` that keeps a record of its calls: from `pre` to
    /// `post`, returning `r`.
    spec fn runs(pre: &Self, post: &Self, shape: BuilderShape, r: BuiltDst) -> bool;

    /// Allocates a block of `layout`: a box whose address is aligned to the
    /// layout and whose content has the layout's size.
    fn try_alloc_layout(&mut self, layout: Layout) -> (r: Result<Box<Uninit>, AllocError>)
        requires
            old(self).inv(),
        ensures
            final(self).inv(),
            Self::allocated(old(self), final(self), layout, r),
            r matches Ok(b) ==> b.content().len == layout.size_spec() && (b.address() as int) % (
            layout.align_spec() as int) == 0;

    /// Builds a dynamically sized value with `builder`: the builder is called
    /// as [protocol_followed] says, not at all when the run is cancelled
    /// before any write, and a value it built holds the header, padded to the
    /// elements' alignment, and one element per accepted call.
    fn try_alloc_remaining_dst_with_builder<B: BuilderDST>(&mut self, builder: &mut B)
        -> (r: Result<(Box<Vec<u8>>, WriteElementState), CancellationError>)
        requires
            old(self).inv(),
        ensures
            final(self).inv(),
            ran(*old(builder), *final(builder), r),
            r == Err::<(Box<Vec<u8>>, WriteElementState), CancellationError>(CancellationError::CancelledBeforeWrite)
                ==> *final(builder) == *old(builder),
            old(builder).counts_calls() ==> built_len(old(builder).shape().header, old(builder).shape().element, r),
            old(builder).counts_calls() ==> Self::runs(old(self), final(self), old(builder).shape(), r);

    /// Frees everything this arena allocated, keeping nothing in its current
    /// chunk.
    fn reset(&mut self)
        requires
            old(self).inv(),
        ensures
            final(self).inv(),
            final(self).capacity_spec() == 0;

    /// Counts of the memory held: bytes handed out never exceed bytes of
    /// storage, which never exceed bytes held in all.
    fn allocation_info(&self) -> (r: AllocationInfo)
        requires
            self.inv(),
        ensures
            r.user_bytes <= r.storage_bytes <= r.total_bytes;

    /// Bytes free in the current chunk.
    fn remaining_chunk_capacity(&self) -> (r: usize)
        requires
            self.inv(),
        ensures
            r == self.capacity_spec();

    /// Places a header followed by between `elements_len.start` and
    /// `elements_len.end` elements (bounds in order), as many as fit.
    fn try_alloc_remaining_dst_with_layout(&mut self, header_layout: Layout, element_layout: Layout, elements_len: Range<usize>)
        -> (r: Option<(Box<Uninit>, usize)>)
        requires
            old(self).inv(),
        ensures
            final(self).inv(),
            r matches Some((b, n)) ==> ordered_range(elements_len).0 <= n <= ordered_range(elements_len).1
                && b.content().len == dst_offset(header_layout.size_spec(), element_layout.align_spec()) + n
                * element_layout.size_spec(),
        default_ensures
            exists|r0: BuiltDst|
                #[trigger] Self::runs(
                    old(self),
                    final(self),
                    span_shape(header_layout, element_layout, ordered_range(elements_len).0 as nat, ordered_range(elements_len).1 as nat),
                    r0,
                ) && span_from(r0, r),
    {
        let (lo, hi) = if elements_len.start <= elements_len.end {
            (elements_len.start, elements_len.end)
        } else {
            (elements_len.end, elements_len.start)
        };
        let mut builder = SpanBuilder::for_dst(header_layout, element_layout, lo, hi);
        let built = self.try_alloc_remaining_dst_with_builder(&mut builder);
        proof {
            use_type_invariant(&builder);
            lemma_span_built(builder, built);
        }
        span_in_range(built, lo, hi)
    }

    /// Takes between `range_len.start` and `range_len.end` elements of
    /// `element_layout` (bounds in order), as many as fit.
    fn try_alloc_remaining_slice_with_layout(&mut self, element_layout: Layout, range_len: Range<usize>)
        -> (r: Option<(Box<Uninit>, usize)>)
        requires
            old(self).inv(),
        ensures
            final(self).inv(),
            r matches Some((b, n)) ==> ordered_range(range_len).0 <= n <= ordered_range(range_len).1
                && b.content().len == n * element_layout.size_spec(),
        default_ensures
            exists|h: Layout, r0: BuiltDst|
                h.size_spec() == 0 && h.align_spec() == 1 && #[trigger] Self::runs(
                    old(self),
                    final(self),
                    span_shape(h, element_layout, ordered_range(range_len).0 as nat, ordered_range(range_len).1 as nat),
                    r0,
                ) && span_from(r0, r),
    {
        let (lo, hi) = if range_len.start <= range_len.end {
            (range_len.start, range_len.end)
        } else {
            (range_len.end, range_len.start)
        };
        let mut builder = SpanBuilder::for_slice(element_layout, lo, hi);
        let ghost sh = builder.shape();
        let built = self.try_alloc_remaining_dst_with_builder(&mut builder);
        proof {
            assert(ordered_range(range_len) == (lo, hi));
            assert(sh == span_shape(sh.header, element_layout, lo as nat, hi as nat));
            assert(Self::runs(old(self), self, span_shape(sh.header, element_layout, lo as nat, hi as nat), built));
        }
        let ea = element_layout.align();
        proof {
            use_type_invariant(&builder);
            lemma_span_built(builder, built);
            crate::layout::lemma_align(0, ea as int);
        }
        span_in_range(built, lo, hi)
    }

    /// Takes as many elements of `element_layout` as fit, at most
    /// `maximum_len`; an empty allocation when the arena refuses.
    fn alloc_remaining_slice_with_layout(&mut self, element_layout: Layout, maximum_len: usize)
        -> (r: (Box<Uninit>, usize))
        requires
            old(self).inv(),
        ensures
            final(self).inv(),
            r.1 <= maximum_len,
            r.0.content().len == r.1 * element_layout.size_spec(),
        default_ensures
            exists|h: Layout, r0: BuiltDst|
                h.size_spec() == 0 && h.align_spec() == 1 && #[trigger] Self::runs(
                    old(self),
                    final(self),
                    span_shape(h, element_layout, 0, maximum_len as nat),
                    r0,
                ) && span_or_empty_from(r0, r),
    {
        let mut builder = SpanBuilder::for_remaining(element_layout, maximum_len);
        let ghost sh = builder.shape();
        let built = self.try_alloc_remaining_dst_with_builder(&mut builder);
        proof {
            assert(sh == span_shape(sh.header, element_layout, 0, maximum_len as nat));
            assert(Self::runs(old(self), self, span_shape(sh.header, element_layout, 0, maximum_len as nat), built));
        }
        let ea = element_layout.align();
        proof {
            use_type_invariant(&builder);
            lemma_span_built(builder, built);
            crate::layout::lemma_align(0, ea as int);
        }
        span_or_empty(built)
    }

    /// Moves as many of `items` as fit into a slice laid out in
    /// `inserting_order`; returns the slice and, unless they all went in,
    /// the items left over.
    fn alloc_remaining_slice_from_iter_with_order<T>(&mut self, items: Vec<T>, inserting_order: InsertingOrder)
        -> (r: (Box<Vec<T>>, Option<Vec<T>>))
        requires
            old(self).inv(),
        ensures
            final(self).inv(),
            split_off(items@, inserting_order, r.0.content()@, r.1),
        default_ensures
            exists|sh: BuilderShape, r0: BuiltDst|
                sh.header.size_spec() == 0 && sh.header.align_spec() == 1 && sh.element.size_spec()
                    == vstd::layout::size_of::<T>() && sh.element.align_spec() == vstd::layout::align_of::<T>()
                    && sh.order == inserting_order && sh.min == 0 && sh.max == items@.len()
                    && #[trigger] Self::runs(old(self), final(self), sh, r0) && fill_from(
                    r0,
                    items@,
                    inserting_order,
                    vstd::layout::align_of::<T>() as usize,
                    r,
                ),
    {
        let mut builder = ItemsBuilder::<T>::new(items.len(), inserting_order);
        let built = self.try_alloc_remaining_dst_with_builder(&mut builder);
        let align = Layout::new::<T>().align();
        filled_from(built, items, inserting_order, align)
    }

    /// [Arena::alloc_remaining_slice_from_iter_with_order] in the original
    /// order.
    fn alloc_remaining_slice_from_iter<T>(&mut self, items: Vec<T>) -> (r: (Box<Vec<T>>, Option<Vec<T>>))
        requires
            old(self).inv(),
        ensures
            final(self).inv(),
            split_off(items@, InsertingOrder::Original, r.0.content()@, r.1),
    {
        self.alloc_remaining_slice_from_iter_with_order(items, InsertingOrder::Original)
    }

    /// Allocates `value` in the arena.
    fn try_alloc<T>(&mut self, value: T) -> (r: Result<Box<T>, AllocError>)
        requires
            old(self).inv(),
        ensures
            final(self).inv(),
            exists|l: Layout, r0: Result<Box<Uninit>, AllocError>|
                l.size_spec() == vstd::layout::size_of::<T>() && l.align_spec() == vstd::layout::align_of::<T>()
                    && #[trigger] Self::allocated(old(self), final(self), l, r0) && passed_on(r0, r),
            r matches Ok(b) ==> b.content() == value && (b.address() as int) % (vstd::layout::align_of::<
                T,
            >() as int) == 0,
    {
        let layout = Layout::new::<T>();
        let r0 = self.try_alloc_layout(layout);
        match r0 {
            Ok(b) => Ok(Box::from_parts(Box::into_non_null(b), value)),
            Err(e) => Err(e),
        }
    }

    /// Allocates a clone of `value` in the arena.
    fn try_alloc_from_clone<T: Clone>(&mut self, value: &T) -> (r: Result<Box<T>, AllocError>)
        requires
            old(self).inv(),
        ensures
            final(self).inv(),
            exists|l: Layout, r0: Result<Box<Uninit>, AllocError>|
                l.size_spec() == vstd::layout::size_of::<T>() && l.align_spec() == vstd::layout::align_of::<T>()
                    && #[trigger] Self::allocated(old(self), final(self), l, r0) && passed_on(r0, r),
            r matches Ok(b) ==> cloned(*value, b.content()),
    {
        let layout = Layout::new::<T>();
        let r0 = self.try_alloc_layout(layout);
        match r0 {
            Ok(b) => Ok(Box::from_parts(Box::into_non_null(b), value.clone())),
            Err(e) => Err(e),
        }
    }

    /// Allocates room for `len` values of `T`, uninitialized.
    fn try_alloc_slice<T>(&mut self, len: usize) -> (r: Result<Box<Uninit>, AllocError>)
        requires
            old(self).inv(),
        ensures
            final(self).inv(),
            valid_layout_int((vstd::layout::size_of::<T>() * len) as int, vstd::layout::align_of::<T>() as int) ==> (exists|l: Layout, r0: Result<Box<Uninit>, AllocError>|
                l.size_spec() == vstd::layout::size_of::<T>() * len && l.align_spec() == vstd::layout::align_of::<T>()
                    && #[trigger] Self::allocated(old(self), final(self), l, r0) && passed_on(r0, r)),
            r matches Ok(b) ==> b.content().len == len && (b.address() as int) % (vstd::layout::align_of::<
                T,
            >() as int) == 0,
            !valid_layout_int((vstd::layout::size_of::<T>() * len) as int, vstd::layout::align_of::<T>() as int)
                ==> r == Err::<Box<Uninit>, AllocError>(AllocError::InvalidLayout),
    {
        let layout = match Layout::new::<T>().array_of(len) {
            Ok(l) => l,
            Err(_) => return Err(AllocError::InvalidLayout),
        };
        let r0 = self.try_alloc_layout(layout);
        match r0 {
            Ok(b) => Ok(Box::from_parts(Box::into_non_null(b), Uninit { len })),
            Err(e) => Err(e),
        }
    }

    /// Allocates room for one value of `T`, uninitialized.
    fn try_alloc_uninit<T>(&mut self) -> (r: Result<Box<Uninit>, AllocError>)
        requires
            old(self).inv(),
        ensures
            final(self).inv(),
            exists|l: Layout, r0: Result<Box<Uninit>, AllocError>|
                l.size_spec() == vstd::layout::size_of::<T>() && l.align_spec() == vstd::layout::align_of::<T>()
                    && #[trigger] Self::allocated(old(self), final(self), l, r0) && passed_on(r0, r),
            r matches Ok(b) ==> b.content().len == 1 && (b.address() as int) % (vstd::layout::align_of::<
                T,
            >() as int) == 0,
    {
        let layout = Layout::new::<T>();
        let r0 = self.try_alloc_layout(layout);
        match r0 {
            Ok(b) => Ok(Box::from_parts(Box::into_non_null(b), Uninit { len: 1 })),
            Err(e) => Err(e),
        }
    }

    /// Allocates a copy of `slice`.
    fn try_alloc_slice_copy<T: Copy>(&mut self, slice: &[T]) -> (r: Result<Box<Vec<T>>, AllocError>)
        requires
            old(self).inv(),
        ensures
            final(self).inv(),
            valid_layout_int((vstd::layout::size_of::<T>() * slice@.len()) as int, vstd::layout::align_of::<T>() as int) ==> (exists|l: Layout, r0: Result<Box<Uninit>, AllocError>|
                l.size_spec() == vstd::layout::size_of::<T>() * slice@.len() && l.align_spec() == vstd::layout::align_of::<T>()
                    && #[trigger] Self::allocated(old(self), final(self), l, r0) && passed_on(r0, r)),
            r matches Ok(b) ==> b.content()@ == slice@,
            !valid_layout_int((vstd::layout::size_of::<T>() * slice@.len()) as int, vstd::layout::align_of::<T>() as int)
                ==> r == Err::<Box<Vec<T>>, AllocError>(AllocError::InvalidLayout),
    {
        let n = slice.len();
        let layout = match Layout::new::<T>().array_of(n) {
            Ok(l) => l,
            Err(_) => return Err(AllocError::InvalidLayout),
        };
        let r0 = self.try_alloc_layout(layout);
        let b = match r0 {
            Ok(b) => b,
            Err(e) => return Err(e),
        };
        let mut out: Vec<T> = Vec::new();
        let mut i: usize = 0;
        while i < n
            invariant
                n == slice@.len(),
                i <= n,
                out@ == slice@.take(i as int),
            decreases n - i,
        {
            out.push(slice[i]);
            proof {
                assert(out@ =~= slice@.take(i as int + 1));
            }
            i = i + 1;
        }
        proof {
            assert(slice@.take(n as int) =~= slice@);
        }
        Ok(Box::from_parts(Box::into_non_null(b), out))
    }

    /// Allocates a clone of `slice`.
    fn try_alloc_slice_clone<T: Clone>(&mut self, slice: &[T]) -> (r: Result<Box<Vec<T>>, AllocError>)
        requires
            old(self).inv(),
        ensures
            final(self).inv(),
            valid_layout_int((vstd::layout::size_of::<T>() * slice@.len()) as int, vstd::layout::align_of::<T>() as int) ==> (exists|l: Layout, r0: Result<Box<Uninit>, AllocError>|
                l.size_spec() == vstd::layout::size_of::<T>() * slice@.len() && l.align_spec() == vstd::layout::align_of::<T>()
                    && #[trigger] Self::allocated(old(self), final(self), l, r0) && passed_on(r0, r)),
            r matches Ok(b) ==> b.content()@.len() == slice@.len() && forall|i: int|
                0 <= i < slice@.len() ==> cloned(slice@[i], #[trigger] b.content()@[i]),
            !valid_layout_int((vstd::layout::size_of::<T>() * slice@.len()) as int, vstd::layout::align_of::<T>() as int)
                ==> r == Err::<Box<Vec<T>>, AllocError>(AllocError::InvalidLayout),
    {
        let n = slice.len();
        let layout = match Layout::new::<T>().array_of(n) {
            Ok(l) => l,
            Err(_) => return Err(AllocError::InvalidLayout),
        };
        let r0 = self.try_alloc_layout(layout);
        let b = match r0 {
            Ok(b) => b,
            Err(e) => return Err(e),
        };
        let mut out: Vec<T> = Vec::new();
        let mut i: usize = 0;
        while i < n
            invariant
                n == slice@.len(),
                i <= n,
                out@.len() == i,
                forall|j: int| 0 <= j < i ==> cloned(slice@[j], #[trigger] out@[j]),
            decreases n - i,
        {
            out.push(slice[i].clone());
            i = i + 1;
        }
        Ok(Box::from_parts(Box::into_non_null(b), out))
    }

    /// Allocates `len` copies of `value`.
    fn try_alloc_slice_fill_copy<T: Copy>(&mut self, len: usize, value: &T) -> (r: Result<Box<Vec<T>>, AllocError>)
        requires
            old(self).inv(),
        ensures
            final(self).inv(),
            valid_layout_int((vstd::layout::size_of::<T>() * len) as int, vstd::layout::align_of::<T>() as int) ==> (exists|l: Layout, r0: Result<Box<Uninit>, AllocError>|
                l.size_spec() == vstd::layout::size_of::<T>() * len && l.align_spec() == vstd::layout::align_of::<T>()
                    && #[trigger] Self::allocated(old(self), final(self), l, r0) && passed_on(r0, r)),
            r matches Ok(b) ==> b.content()@ == Seq::new(len as nat, |i: int| *value),
            !valid_layout_int((vstd::layout::size_of::<T>() * len) as int, vstd::layout::align_of::<T>() as int)
                ==> r == Err::<Box<Vec<T>>, AllocError>(AllocError::InvalidLayout),
    {
        let layout = match Layout::new::<T>().array_of(len) {
            Ok(l) => l,
            Err(_) => return Err(AllocError::InvalidLayout),
        };
        let r0 = self.try_alloc_layout(layout);
        let b = match r0 {
            Ok(b) => b,
            Err(e) => return Err(e),
        };
        let mut out: Vec<T> = Vec::new();
        let mut i: usize = 0;
        while i < len
            invariant
                i <= len,
                out@ == Seq::new(i as nat, |j: int| *value),
            decreases len - i,
        {
            out.push(*value);
            proof {
                assert(out@ =~= Seq::new(i as nat + 1, |j: int| *value));
            }
            i = i + 1;
        }
        Ok(Box::from_parts(Box::into_non_null(b), out))
    }

    /// Allocates `len` clones of `value`.
    fn try_alloc_slice_fill_clone<T: Clone>(&mut self, len: usize, value: &T) -> (r: Result<Box<Vec<T>>, AllocError>)
        requires
            old(self).inv(),
        ensures
            final(self).inv(),
            valid_layout_int((vstd::layout::size_of::<T>() * len) as int, vstd::layout::align_of::<T>() as int) ==> (exists|l: Layout, r0: Result<Box<Uninit>, AllocError>|
                l.size_spec() == vstd::layout::size_of::<T>() * len && l.align_spec() == vstd::layout::align_of::<T>()
                    && #[trigger] Self::allocated(old(self), final(self), l, r0) && passed_on(r0, r)),
            r matches Ok(b) ==> b.content()@.len() == len && forall|i: int|
                0 <= i < len ==> cloned(*value, #[trigger] b.content()@[i]),
            !valid_layout_int((vstd::layout::size_of::<T>() * len) as int, vstd::layout::align_of::<T>() as int)
                ==> r == Err::<Box<Vec<T>>, AllocError>(AllocError::InvalidLayout),
    {
        let layout = match Layout::new::<T>().array_of(len) {
            Ok(l) => l,
            Err(_) => return Err(AllocError::InvalidLayout),
        };
        let r0 = self.try_alloc_layout(layout);
        let b = match r0 {
            Ok(b) => b,
            Err(e) => return Err(e),
        };
        let mut out: Vec<T> = Vec::new();
        let mut i: usize = 0;
        while i < len
            invariant
                i <= len,
                out@.len() == i,
                forall|j: int| 0 <= j < i ==> cloned(*value, #[trigger] out@[j]),
            decreases len - i,
        {
            out.push(value.clone());
            i = i + 1;
        }
        Ok(Box::from_parts(Box::into_non_null(b), out))
    }

    /// Allocates `len` default values of `T`.
    fn try_alloc_slice_fill_default<T: Default>(&mut self, len: usize) -> (r: Result<Box<Vec<T>>, AllocError>)
        requires
            old(self).inv(),
        ensures
            final(self).inv(),
            valid_layout_int((vstd::layout::size_of::<T>() * len) as int, vstd::layout::align_of::<T>() as int) ==> (exists|l: Layout, r0: Result<Box<Uninit>, AllocError>|
                l.size_spec() == vstd::layout::size_of::<T>() * len && l.align_spec() == vstd::layout::align_of::<T>()
                    && #[trigger] Self::allocated(old(self), final(self), l, r0) && passed_on(r0, r)),
            r matches Ok(b) ==> b.content()@.len() == len && forall|i: int|
                0 <= i < len ==> call_ensures(T::default, (), #[trigger] b.content()@[i]),
            !valid_layout_int((vstd::layout::size_of::<T>() * len) as int, vstd::layout::align_of::<T>() as int)
                ==> r == Err::<Box<Vec<T>>, AllocError>(AllocError::InvalidLayout),
    {
        let layout = match Layout::new::<T>().array_of(len) {
            Ok(l) => l,
            Err(_) => return Err(AllocError::InvalidLayout),
        };
        let r0 = self.try_alloc_layout(layout);
        let b = match r0 {
            Ok(b) => b,
            Err(e) => return Err(e),
        };
        let mut out: Vec<T> = Vec::new();
        let mut i: usize = 0;
        while i < len
            invariant
                i <= len,
                out@.len() == i,
                forall|j: int| 0 <= j < i ==> call_ensures(T::default, (), #[trigger] out@[j]),
            decreases len - i,
        {
            out.push(T::default());
            i = i + 1;
        }
        Ok(Box::from_parts(Box::into_non_null(b), out))
    }

    /// Allocates the values `f(0)`, ..., `f(len - 1)`.
    fn try_alloc_slice_fill_with<T, F: FnMut(usize) -> T>(&mut self, len: usize, mut f: F) -> (r: Result<Box<Vec<T>>, AllocError>)
        requires
            old(self).inv(),
            forall|i: usize| i < len ==> f.requires((i,)),
        ensures
            final(self).inv(),
            valid_layout_int((vstd::layout::size_of::<T>() * len) as int, vstd::layout::align_of::<T>() as int) ==> (exists|l: Layout, r0: Result<Box<Uninit>, AllocError>|
                l.size_spec() == vstd::layout::size_of::<T>() * len && l.align_spec() == vstd::layout::align_of::<T>()
                    && #[trigger] Self::allocated(old(self), final(self), l, r0) && passed_on(r0, r)),
            r matches Ok(b) ==> b.content()@.len() == len && forall|i: int|
                0 <= i < len ==> f.ensures((i as usize,), #[trigger] b.content()@[i]),
            !valid_layout_int((vstd::layout::size_of::<T>() * len) as int, vstd::layout::align_of::<T>() as int)
                ==> r == Err::<Box<Vec<T>>, AllocError>(AllocError::InvalidLayout),
    {
        let layout = match Layout::new::<T>().array_of(len) {
            Ok(l) => l,
            Err(_) => return Err(AllocError::InvalidLayout),
        };
        let r0 = self.try_alloc_layout(layout);
        let b = match r0 {
            Ok(b) => b,
            Err(e) => return Err(e),
        };
        let ghost f0 = f;
        let mut out: Vec<T> = Vec::new();
        let mut i: usize = 0;
        while i < len
            invariant
                i <= len,
                out@.len() == i,
                f == f0,
                forall|k: usize| k < len ==> f0.requires((k,)),
                forall|j: int| 0 <= j < i ==> f0.ensures((j as usize,), #[trigger] out@[j]),
            decreases len - i,
        {
            proof {
                broadcast use vstd::function::group_function_axioms;
            }
            let v = f(i);
            out.push(v);
            i = i + 1;
        }
        Ok(Box::from_parts(Box::into_non_null(b), out))
    }

    /// Allocates the given values, in order.
    fn try_alloc_slice_fill_iter<T>(&mut self, items: Vec<T>) -> (r: Result<Box<Vec<T>>, AllocError>)
        requires
            old(self).inv(),
        ensures
            final(self).inv(),
            valid_layout_int((vstd::layout::size_of::<T>() * items@.len()) as int, vstd::layout::align_of::<T>() as int) ==> (exists|l: Layout, r0: Result<Box<Uninit>, AllocError>|
                l.size_spec() == vstd::layout::size_of::<T>() * items@.len() && l.align_spec() == vstd::layout::align_of::<T>()
                    && #[trigger] Self::allocated(old(self), final(self), l, r0) && passed_on(r0, r)),
            r matches Ok(b) ==> b.content()@ == items@,
            !valid_layout_int((vstd::layout::size_of::<T>() * items@.len()) as int, vstd::layout::align_of::<T>() as int)
                ==> r == Err::<Box<Vec<T>>, AllocError>(AllocError::InvalidLayout),
    {
        let layout = match Layout::new::<T>().array_of(items.len()) {
            Ok(l) => l,
            Err(_) => return Err(AllocError::InvalidLayout),
        };
        let r0 = self.try_alloc_layout(layout);
        match r0 {
            Ok(b) => Ok(Box::from_parts(Box::into_non_null(b), items)),
            Err(e) => Err(e),
        }
    }

    /// Allocates a copy of the string `s`.
    fn try_alloc_str(&mut self, s: &str) -> (r: Result<Box<String>, AllocError>)
        requires
            old(self).inv(),
        ensures
            final(self).inv(),
            r matches Ok(b) ==> b.content()@ == s@,
            !valid_layout_int(s.spec_bytes().len() as int, 1) ==> r == Err::<Box<String>, AllocError>(
                AllocError::InvalidLayout,
            ),
            valid_layout_int(s.spec_bytes().len() as int, 1) ==> (exists|l: Layout, r0: Result<Box<Uninit>, AllocError>|
                l.size_spec() == s.spec_bytes().len() && l.align_spec() == 1
                    && #[trigger] Self::allocated(old(self), final(self), l, r0) && passed_on(r0, r)),
    {
        let bytes = s.as_bytes_vec();
        let layout = match byte_layout().array_of(bytes.len()) {
            Ok(l) => l,
            Err(_) => return Err(AllocError::InvalidLayout),
        };
        let r0 = self.try_alloc_layout(layout);
        match r0 {
            Ok(b) => {
                let text = s.to_string();
                proof {
                    broadcast use vstd::string::to_string_from_display_ensures_for_str;
                }
                Ok(Box::from_parts(Box::into_non_null(b), text))
            },
            Err(e) => Err(e),
        }
    }

    /// Allocates the value that `f` makes.
    fn try_alloc_with<T, F: FnOnce() -> T>(&mut self, f: F) -> (r: Result<Box<T>, AllocError>)
        requires
            old(self).inv(),
            f.requires(()),
        ensures
            final(self).inv(),
            exists|l: Layout, r0: Result<Box<Uninit>, AllocError>|
                l.size_spec() == vstd::layout::size_of::<T>() && l.align_spec() == vstd::layout::align_of::<T>()
                    && #[trigger] Self::allocated(old(self), final(self), l, r0) && passed_on(r0, r),
            r matches Ok(b) ==> f.ensures((), b.content()) && (b.address() as int) % (vstd::layout::align_of::<
                T,
            >() as int) == 0,
    {
        let layout = Layout::new::<T>();
        let r0 = self.try_alloc_layout(layout);
        match r0 {
            Ok(b) => {
                let v = f();
                Ok(Box::from_parts(Box::into_non_null(b), v))
            },
            Err(e) => Err(e),
        }
    }

    /// Takes between `range_len.start` and `range_len.end` values of `T`
    /// (bounds in order), uninitialized, as many as fit. Values of no size
    /// take no memory: the larger bound is granted.
    fn try_alloc_remaining_slice<T>(&mut self, range_len: Range<usize>) -> (r: Option<Box<Uninit>>)
        requires
            old(self).inv(),
        ensures
            final(self).inv(),
            vstd::layout::size_of::<T>() == 0 ==> (r matches Some(b) && b.content().len == (if range_len.start
                <= range_len.end {
                range_len.end
            } else {
                range_len.start
            })),
            r matches Some(b) ==> ordered_range(range_len).0 <= b.content().len <= ordered_range(range_len).1,
        default_ensures
            vstd::layout::size_of::<T>() > 0 ==> exists|h: Layout, e: Layout, r0: BuiltDst|
                h.size_spec() == 0 && h.align_spec() == 1 && e.size_spec() == vstd::layout::size_of::<T>()
                    && e.align_spec() == vstd::layout::align_of::<T>() && #[trigger] Self::runs(
                    old(self),
                    final(self),
                    span_shape(h, e, ordered_range(range_len).0 as nat, ordered_range(range_len).1 as nat),
                    r0,
                ) && values_from(r0, r),
    {
        let layout = Layout::new::<T>();
        let (lo, hi) = if range_len.start <= range_len.end {
            (range_len.start, range_len.end)
        } else {
            (range_len.end, range_len.start)
        };
        if layout.size() > 0 {
            let mut builder = SpanBuilder::for_slice(layout, lo, hi);
            let ghost sh = builder.shape();
            let built = self.try_alloc_remaining_dst_with_builder(&mut builder);
            proof {
                assert(ordered_range(range_len) == (lo, hi));
                assert(sh == span_shape(sh.header, layout, lo as nat, hi as nat));
                assert(Self::runs(old(self), self, span_shape(sh.header, layout, lo as nat, hi as nat), built));
            }
            proof {
                use_type_invariant(&builder);
                lemma_span_built(builder, built);
            lemma_span_built(builder, built);
            }
            values_or_none(built)
        } else {
            Some(Box::from_parts(layout.align(), Uninit { len: hi }))
        }
    }

    /// Takes up to `maximum_len` values of `T`, uninitialized, as many as
    /// fit; possibly none. Values of no size take no memory: all are granted.
    fn alloc_slice_from_remaining<T>(&mut self, maximum_len: usize) -> (r: Box<Uninit>)
        requires
            old(self).inv(),
        ensures
            final(self).inv(),
            vstd::layout::size_of::<T>() == 0 ==> r.content().len == maximum_len,
            r.content().len <= maximum_len,
        default_ensures
            vstd::layout::size_of::<T>() > 0 ==> exists|h: Layout, e: Layout, r0: BuiltDst|
                h.size_spec() == 0 && h.align_spec() == 1 && e.size_spec() == vstd::layout::size_of::<T>()
                    && e.align_spec() == vstd::layout::align_of::<T>() && #[trigger] Self::runs(
                    old(self),
                    final(self),
                    span_shape(h, e, 0, maximum_len as nat),
                    r0,
                ) && values_or_empty_from(r0, vstd::layout::align_of::<T>() as usize, r),
    {
        let layout = Layout::new::<T>();
        if layout.size() > 0 {
            let mut builder = SpanBuilder::for_remaining(layout, maximum_len);
            let ghost sh = builder.shape();
            let built = self.try_alloc_remaining_dst_with_builder(&mut builder);
            proof {
                assert(sh == span_shape(sh.header, layout, 0, maximum_len as nat));
                assert(Self::runs(old(self), self, span_shape(sh.header, layout, 0, maximum_len as nat), built));
            }
            proof {
                use_type_invariant(&builder);
                lemma_span_built(builder, built);
            lemma_span_built(builder, built);
            }
            values_or_empty(built, layout.align())
        } else {
            Box::from_parts(layout.align(), Uninit { len: maximum_len })
        }
    }
}

impl Arena for LocalArena {
    open spec fn inv(&self) -> bool {
        self.wf()
    }

    open spec fn allocated(pre: &Self, post: &Self, layout: Layout, r: Result<Box<Uninit>, AllocError>) -> bool {
        layout_allocated(*pre, *post, layout, r)
    }

    open spec fn runs(pre: &Self, post: &Self, shape: BuilderShape, r: BuiltDst) -> bool {
        built_with_layouts(*pre, *post, shape.header, shape.element, r)
    }

    open spec fn capacity_spec(&self) -> nat {
        self.frontier().remaining() as nat
    }

    fn try_alloc_layout(&mut self, layout: Layout) -> (r: Result<Box<Uninit>, AllocError>)
        ensures
            layout_allocated(*old(self), *final(self), layout, r),
    {
        LocalArena::try_alloc_layout(self, layout)
    }

    fn try_alloc_remaining_dst_with_builder<B: BuilderDST>(&mut self, builder: &mut B)
        -> (r: Result<(Box<Vec<u8>>, WriteElementState), CancellationError>)
        ensures
            built_in(*old(self), *final(self), r),
            old(builder).counts_calls() ==> built_with_layouts(*old(self), *final(self), old(builder).shape().header, old(builder).shape().element, r),
    {
        let r = LocalArena::try_alloc_remaining_dst_with_builder(self, builder);
        proof {
            if old(builder).counts_calls() && r is Ok {
                let info = choose|info: DSTInfo|
                    info.consistent() && info.header_layout == old(builder).shape().header && info.element_layout
                        == old(builder).shape().element && #[trigger] dst_run(*old(self), *self, info, r);
                lemma_run_len(*old(self), *self, info, r);
            }
        }
        r
    }

    fn reset(&mut self) {
        LocalArena::reset(self)
    }

    fn allocation_info(&self) -> (r: AllocationInfo)
        ensures
            r == self.info_spec(),
    {
        let r = LocalArena::allocation_info(self);
        proof {
            self.lemma_info_order();
        }
        r
    }

    fn remaining_chunk_capacity(&self) -> (r: usize) {
        proof { self.lemma_frontier(); }
        LocalArena::remaining_chunk_capacity(self)
    }

    fn try_alloc_remaining_dst_with_layout(&mut self, header_layout: Layout, element_layout: Layout, elements_len: Range<usize>)
        -> (r: Option<(Box<Uninit>, usize)>)
        ensures
            dst_allocated(*old(self), *final(self), header_layout, element_layout, elements_len, r),
    {
        proof { self.lemma_frontier(); }
        let r = LocalArena::try_alloc_remaining_dst_with_layout(self, header_layout, element_layout, elements_len);
        proof {
            let (lo, hi) = ordered_range(elements_len);
            if r is Some {
                crate::chunk::lemma_dst_outcome_count(old(self).frontier(), header_layout.size_spec(), header_layout.align_spec(), element_layout.size_spec(), element_layout.align_spec(), lo as int, hi as int);
                crate::chunk::lemma_dst_count_any(header_layout.size_spec(), header_layout.align_spec(), element_layout.size_spec(), element_layout.align_spec(), lo as int, hi as int);
            }
            crate::local_arena::lemma_dst_allocated_len(*old(self), *self, header_layout, element_layout, elements_len, r);
        }
        r
    }

    fn try_alloc_remaining_slice_with_layout(&mut self, element_layout: Layout, range_len: Range<usize>)
        -> (r: Option<(Box<Uninit>, usize)>)
        ensures
            slice_allocated(*old(self), *final(self), element_layout, range_len, r),
    {
        proof { self.lemma_frontier(); }
        let es = element_layout.size();
        let ea = element_layout.align();
        let r = LocalArena::try_alloc_remaining_slice_with_layout(self, element_layout, range_len);
        proof {
            let (lo, hi) = ordered_range(range_len);
            if r is Some {
                crate::chunk::lemma_slice_outcome_count(old(self).frontier(), es as int, ea as int, lo as int, hi as int);
                crate::chunk::lemma_slice_count_any(es as int, ea as int, lo as int, hi as int);
            }
            crate::local_arena::lemma_slice_allocated_len(*old(self), *self, element_layout, range_len, r);
        }
        r
    }

    fn alloc_remaining_slice_with_layout(&mut self, element_layout: Layout, maximum_len: usize)
        -> (r: (Box<Uninit>, usize))
        ensures
            remaining_allocated(*old(self), *final(self), element_layout, maximum_len, r),
    {
        let ea = element_layout.align();
        let r = LocalArena::alloc_remaining_slice_with_layout(self, element_layout, maximum_len);
        proof {
            crate::local_arena::lemma_remaining_allocated_len(*old(self), *self, element_layout, maximum_len, r);
        }
        r
    }

    fn alloc_remaining_slice_from_iter_with_order<T>(&mut self, items: Vec<T>, inserting_order: InsertingOrder)
        -> (r: (Box<Vec<T>>, Option<Vec<T>>))
        ensures
            items_allocated(*old(self), *final(self), items, inserting_order, r),
    {
        let r = LocalArena::alloc_remaining_slice_from_iter_with_order(self, items, inserting_order);
        proof {
            crate::local_arena::lemma_items_split(*old(self), *self, items, inserting_order, r);
        }
        r
    }

    fn try_alloc_remaining_slice<T>(&mut self, range_len: Range<usize>) -> (r: Option<Box<Uninit>>)
        ensures
            exists|l: Layout, r0: Option<(Box<Uninit>, usize)>|
                l.size_spec() == vstd::layout::size_of::<T>() && l.align_spec() == vstd::layout::align_of::<T>()
                    && #[trigger] slice_allocated(*old(self), *final(self), l, range_len, r0) && match r0 {
                    Some((b, n)) => r matches Some(a) && a.address() == b.address() && a.content().len == n,
                    None => r is None,
                },
    {
        let layout = Layout::new::<T>();
        let r0 = LocalArena::try_alloc_remaining_slice_with_layout(self, layout, range_len);
        proof {
            assert(slice_allocated(*old(self), *self, layout, range_len, r0));
        }
        match r0 {
            Some((b, n)) => Some(Box::from_parts(Box::as_ptr(&b), Uninit { len: n })),
            None => None,
        }
    }

    fn alloc_slice_from_remaining<T>(&mut self, maximum_len: usize) -> (r: Box<Uninit>)
        ensures
            exists|l: Layout, r0: Option<(Box<Uninit>, usize)>|
                l.size_spec() == vstd::layout::size_of::<T>() && l.align_spec() == vstd::layout::align_of::<T>()
                    && #[trigger] slice_allocated(*old(self), *final(self), l, 0..maximum_len, r0) && (r0 matches Some(
                    (b, n),
                ) && r.address() == b.address() && r.content().len == n),
    {
        let layout = Layout::new::<T>();
        let r0 = LocalArena::try_alloc_remaining_slice_with_layout(self, layout, 0..maximum_len);
        proof {
            assert(slice_allocated(*old(self), *self, layout, 0..maximum_len, r0));
        }
        match r0 {
            Some((b, n)) => Box::from_parts(Box::as_ptr(&b), Uninit { len: n }),
            None => Box::from_parts(layout.align(), Uninit { len: 0 }),
        }
    }
}

} // verus!
