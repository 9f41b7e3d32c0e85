//! Allocation of dynamically sized values, driven by a [BuilderDST]: a
//! header followed by as many elements as the builder writes and the chunk
//! holds.
use vstd::prelude::*;
use crate::layout::{Layout, align_up, align_down, lemma_align, valid_layout_int, extend_ok, max_align};
use crate::chunk::{Chunk, ChunkState, aligned_bump, dst_geometry_ok, dst_align, dst_offset, DANGLING};
use crate::boxed::Box;
use crate::{BuilderCalls, BuilderDST, CancellationError, InsertingOrder, WriteElementState, protocol_followed};

verus! {

/// Distance between consecutive elements of layout `(es, ea)`.
pub open spec fn stride(es: nat, ea: nat) -> int {
    align_up(es as int, ea as int)
}

/// Whether the layouts of a header, its elements and the minimum element
/// count combine into valid layouts.
pub open spec fn dst_info_ok(hs: nat, ha: nat, es: nat, ea: nat, min: nat) -> bool {
    &&& dst_geometry_ok(hs, ha, es, ea)
    &&& valid_layout_int(stride(es, ea) * min, ea as int)
    &&& extend_ok(hs, ha, (stride(es, ea) * min) as nat, ea)
}

/// Precomputed layout facts of a dynamically sized allocation.
pub struct DSTInfo {
    /// Layout of the header.
    pub header_layout: Layout,
    /// Layout of each element.
    pub element_layout: Layout,
    /// Layout of the header and the minimum number of elements, padded.
    pub min_layout: Layout,
    /// Minimum number of elements.
    pub min_element: usize,
    /// Offset of the first element from the start of the header.
    pub header_offset: usize,
    /// Alignment of the whole value.
    pub align: usize,
}

impl DSTInfo {
    /// The relations that [DSTInfo::from_layouts] establishes.
    pub open spec fn consistent(&self) -> bool {
        let hs = self.header_layout.size_spec();
        let ha = self.header_layout.align_spec();
        let es = self.element_layout.size_spec();
        let ea = self.element_layout.align_spec();
        &&& dst_info_ok(hs, ha, es, ea, self.min_element as nat)
        &&& self.header_offset == dst_offset(hs, ea)
        &&& self.align == dst_align(ha, ea)
        &&& self.min_layout.size_spec() == align_up(
            dst_offset(hs, ea) + stride(es, ea) * self.min_element,
            dst_align(ha, ea),
        )
        &&& self.min_layout.align_spec() == dst_align(ha, ea)
    }

    /// Computes the layout facts; `None` when the layouts do not combine.
    pub fn from_layouts(header: Layout, element: Layout, min_element: usize) -> (r: Option<DSTInfo>)
        ensures
            r is Some <==> dst_info_ok(
                header.size_spec(),
                header.align_spec(),
                element.size_spec(),
                element.align_spec(),
                min_element as nat,
            ),
            r matches Some(info) ==> {
                &&& info.consistent()
                &&& info.header_layout == header
                &&& info.element_layout == element
                &&& info.min_element == min_element
            },
    {
        let one = match element.repeat(1) {
            Ok((l, _)) => l,
            Err(_) => return None,
        };
        let align = match header.extend(one) {
            Ok((l, _)) => l.pad_to_align().align(),
            Err(_) => return None,
        };
        let many = match element.repeat(min_element) {
            Ok((l, _)) => l,
            Err(_) => return None,
        };
        let (min_layout, header_offset) = match header.extend(many) {
            Ok(p) => p,
            Err(_) => return None,
        };
        let min_layout = min_layout.pad_to_align();
        Some(DSTInfo { header_layout: header, element_layout: element, min_layout, min_element, header_offset, align })
    }

    /// Computes the layout facts of what a builder will build.
    pub fn new<B: BuilderDST>(builder: &B) -> (r: Option<DSTInfo>)
        ensures
            r matches Some(info) ==> info.consistent(),
            builder.counts_calls() ==> (r matches Some(info) ==> info.header_layout == builder.shape().header
                && info.element_layout == builder.shape().element),
    {
        let header = builder.header_layout();
        let element = builder.element_layout();
        let (min_element, _) = builder.elements_hint();
        DSTInfo::from_layouts(header, element, min_element)
    }
}

/// How a dynamically sized value will be placed in a chunk.
#[derive(Clone, Copy, Debug, PartialEq, Eq, Structural)]
pub enum DstPlan {
    /// Below the bump pointer, rounded down to the value's alignment.
    Normal { aligned_ptr: usize },
    /// Not in the chunk: the value has no size. With `count`, no element is
    /// written; without, elements of no size are written until the builder
    /// stops.
    Rare { count: bool },
}

/// The plan that [plan_dst] gives for a chunk in state `c`, or `None`.
pub open spec fn dst_plan_spec(c: ChunkState, info: DSTInfo) -> Option<DstPlan> {
    let aligned = aligned_bump(c, info.align as int);
    let min_end = c.start + info.min_layout.size_spec();
    if min_end > usize::MAX {
        None
    } else if aligned < min_end {
        if info.header_offset == 0 && info.min_element == 0 {
            Some(DstPlan::Rare { count: true })
        } else if info.header_offset == 0 && info.element_layout.size_spec() == 0 {
            Some(DstPlan::Rare { count: false })
        } else {
            None
        }
    } else {
        Some(DstPlan::Normal { aligned_ptr: aligned as usize })
    }
}

/// Decides how a value described by `info` goes into `chunk`: `Err` when the
/// chunk cannot hold even the header and the minimum number of elements.
pub fn plan_dst(chunk: &Chunk, info: &DSTInfo) -> (r: Result<DstPlan, ()>)
    requires
        chunk.wf(),
        info.consistent(),
    ensures
        match dst_plan_spec(chunk@, *info) {
            Some(p) => r == Ok::<DstPlan, ()>(p),
            None => r is Err,
        },
{
    let start = chunk.start_addr();
    let current = chunk.bump_ptr();
    let ea = info.element_layout.align();
    let ha = info.header_layout.align();
    let aligned = crate::layout::align_down_exec(current, info.align);
    let min_size = info.min_layout.size();
    match start.checked_add(min_size) {
        Some(min_end) => {
            if aligned < min_end {
                if info.header_offset == 0 {
                    if info.min_element == 0 {
                        return Ok(DstPlan::Rare { count: true });
                    } else if info.element_layout.size() == 0 {
                        return Ok(DstPlan::Rare { count: false });
                    }
                }
                Err(())
            } else {
                Ok(DstPlan::Normal { aligned_ptr: aligned })
            }
        },
        None => Err(()),
    }
}

/// `n` bytes of `src` from `from` on, with zeros past its end.
pub open spec fn bytes_at(src: Seq<u8>, from: int, n: int) -> Seq<u8> {
    Seq::new(n as nat, |i: int| if 0 <= from + i < src.len() { src[from + i] } else { 0u8 })
}

/// `n` bytes read from `src` at `from`, with zeros past its end.
fn read_bytes(src: &Vec<u8>, from: usize, n: usize) -> (r: Vec<u8>)
    ensures
        r@ == bytes_at(src@, from as int, n as int),
{
    let mut out: Vec<u8> = Vec::new();
    let mut i: usize = 0;
    while i < n
        invariant
            i <= n,
            out@ == bytes_at(src@, from as int, n as int).take(i as int),
        decreases n - i,
    {
        let b = if from <= src.len() && i < src.len() - from { src[from + i] } else { 0u8 };
        out.push(b);
        proof {
            assert(out@ =~= bytes_at(src@, from as int, n as int).take(i as int + 1));
        }
        i = i + 1;
    }
    proof {
        assert(out@ =~= bytes_at(src@, from as int, n as int));
    }
    out
}

/// Byte `i` of the memory of a value whose header bytes are `header`
/// (`hsize` of them, then zeros up to `ho`) and whose `elements` follow, `es`
/// bytes each: slot `j` holds the element written `j`-th when `in_order`,
/// else the one written `n - 1 - j`-th.
pub open spec fn laid_out_byte(header: Seq<u8>, hsize: int, ho: int, elements: Seq<Seq<u8>>, es: int, in_order: bool, i: int) -> u8 {
    if i < hsize {
        if i < header.len() { header[i] } else { 0u8 }
    } else if i < ho {
        0u8
    } else {
        let n = elements.len() as int;
        let j = (i - ho) / es;
        let k = (i - ho) % es;
        let w = if in_order { j } else { n - 1 - j };
        if k < elements[w].len() { elements[w][k] } else { 0u8 }
    }
}

/// The memory of a value: its header, padding, then its elements in the
/// order [laid_out_byte] gives.
pub open spec fn laid_out(header: Seq<u8>, hsize: int, ho: int, elements: Seq<Seq<u8>>, es: int, in_order: bool) -> Seq<u8> {
    Seq::new((ho + elements.len() * es) as nat, |i: int| laid_out_byte(header, hsize, ho, elements, es, in_order, i))
}

/// The bytes of each of `elements`.
pub open spec fn contents(elements: Seq<Vec<u8>>) -> Seq<Seq<u8>> {
    elements.map_values(|v: Vec<u8>| v@)
}

/// Whether the elements are laid out in the order they were written: they
/// are for [InsertingOrder::Original], and reversed otherwise.
pub fn keeps_write_order(order: InsertingOrder) -> (r: bool)
    ensures
        r == (order == InsertingOrder::Original),
{
    match order {
        InsertingOrder::Original => true,
        _ => false,
    }
}

/// Lays the memory of a value out: the first `hsize` bytes of `header`,
/// zeros up to `ho`, then the elements as [laid_out] orders them.
pub fn lay_out(header: &Vec<u8>, hsize: usize, ho: usize, elements: &Vec<Vec<u8>>, es: usize, in_order: bool)
    -> (r: Vec<u8>)
    requires
        hsize <= ho,
        ho + elements@.len() * es <= usize::MAX,
    ensures
        r@ == laid_out(header@, hsize as int, ho as int, contents(elements@), es as int, in_order),
{
    let ghost el = contents(elements@);
    let ghost total = (ho + elements@.len() * es) as int;
    let ghost target = laid_out(header@, hsize as int, ho as int, el, es as int, in_order);
    let mut memory: Vec<u8> = Vec::new();
    let mut i: usize = 0;
    while i < ho
        invariant
            hsize <= ho <= total,
            i <= ho,
            target.len() == total,
            target == laid_out(header@, hsize as int, ho as int, el, es as int, in_order),
            memory@ == target.take(i as int),
        decreases ho - i,
    {
        let b = if i < hsize && i < header.len() { header[i] } else { 0u8 };
        memory.push(b);
        proof {
            assert(memory@ =~= target.take(i as int + 1));
        }
        i = i + 1;
    }
    let n = elements.len();
    let mut j: usize = 0;
    while j < n
        invariant
            n == elements@.len(),
            el == contents(elements@),
            target == laid_out(header@, hsize as int, ho as int, el, es as int, in_order),
            target.len() == total,
            total == ho + n * es,
            hsize <= ho,
            j <= n,
            memory@ == target.take(ho + j * es),
        decreases n - j,
    {
        let w = if in_order { j } else { n - 1 - j };
        let mut k: usize = 0;
        proof {
            assert(ho + j * es + es <= total) by (nonlinear_arith)
                requires
                    j < n,
                    total == ho + n * es,
                    es >= 0,
            ;
        }
        while k < es
            invariant
                n == elements@.len(),
                el == contents(elements@),
                target == laid_out(header@, hsize as int, ho as int, el, es as int, in_order),
                target.len() == total,
                hsize <= ho,
                j < n,
                w == (if in_order { j as int } else { n - 1 - j }),
                ho + j * es + es <= total,
                k <= es,
                memory@ == target.take(ho + j * es + k),
            decreases es - k,
        {
            let b = if k < elements[w].len() { elements[w][k] } else { 0u8 };
            proof {
                let i = ho + j * es + k;
                vstd::arithmetic::div_mod::lemma_fundamental_div_mod_converse(i - ho, es as int, j as int, k as int);
                assert(el[w as int] == elements@[w as int]@);
                assert(target[i] == laid_out_byte(header@, hsize as int, ho as int, el, es as int, in_order, i));
            }
            memory.push(b);
            proof {
                assert(memory@ =~= target.take(ho + j * es + k + 1));
            }
            k = k + 1;
        }
        proof {
            assert(ho + (j + 1) * es == ho + j * es + es) by (nonlinear_arith);
        }
        j = j + 1;
    }
    proof {
        assert(memory@ =~= target);
    }
    memory
}

/// `after` is `before` with one more call of `drop_element` for each of
/// `ds`, given it, in order, when it counts its calls.
pub open spec fn dropped<B: BuilderDST>(before: B, after: B, ds: Seq<Seq<u8>>) -> bool {
    &&& after.counts_calls() == before.counts_calls()
    &&& before.counts_calls() ==> {
        &&& after.shape() == before.shape()
        &&& after.calls().counts() == before.calls().counts().drop_elements(ds.len())
        &&& after.calls().element_log == before.calls().element_log
        &&& after.calls().header_log == before.calls().header_log
        &&& after.calls().finalizer_log == before.calls().finalizer_log
        &&& after.calls().element_drop_log == before.calls().element_drop_log + ds
        &&& after.calls().header_drop_log == before.calls().header_drop_log
    }
}

/// Position in memory of the element written `k`-th of `n`: the same when
/// the order is kept, else counted from the other end.
pub open spec fn slot(k: int, n: int, in_order: bool) -> int {
    if in_order {
        k
    } else {
        n - 1 - k
    }
}

/// The first `es` bytes of each of `outs`, zeros past their end.
pub open spec fn element_bytes(outs: Seq<Seq<u8>>, es: int) -> Seq<Seq<u8>> {
    Seq::new(outs.len(), |k: int| bytes_at(outs[k], 0, es))
}

/// The `n` elements of `es` bytes as they stand in `memory` after `ho`
/// bytes, in the order they were written.
pub open spec fn elements_in(memory: Seq<u8>, ho: int, es: int, n: int, in_order: bool) -> Seq<Seq<u8>> {
    Seq::new(n as nat, |k: int| bytes_at(memory, ho + slot(k, n, in_order) * es, es))
}

/// `n` zero bytes.
pub open spec fn zeros(n: int) -> Seq<u8> {
    Seq::new(n as nat, |i: int| 0u8)
}

/// What each logged call left in its memory, in order.
pub open spec fn left_by(log: Seq<(Seq<u8>, Seq<u8>)>) -> Seq<Seq<u8>> {
    log.map_values(|p: (Seq<u8>, Seq<u8>)| p.1)
}

/// Element calls that were each given `es` zero bytes and left `outs`.
pub open spec fn given_zeros(outs: Seq<Seq<u8>>, es: int) -> Seq<(Seq<u8>, Seq<u8>)> {
    outs.map_values(|o: Seq<u8>| (zeros(es), o))
}

/// The memory of a run of a builder whose layouts are `header` and
/// `element` and whose elements go in `order`, that returned `r`, from the
/// log `before` to `after`: each accepted element call was
/// given as many zero bytes as an element has; unless the run was cancelled
/// before any write, the header call was given as many zero bytes as the
/// header has; when the finalizer ran, it was given the header the header
/// call left, zeros up to the elements, then the elements the element calls
/// left, in the builder's order; a value built holds, for its length, what
/// the finalizer left; when the header call refused, each written element
/// was dropped, in the order written, given the bytes its call left; when
/// the finalizer refused, each element was dropped, in the order written,
/// given its bytes as the finalizer left them, then the header, given its
/// bytes as the finalizer left them.
pub open spec fn memory_followed(
    before: BuilderCalls,
    after: BuilderCalls,
    header: Layout,
    element: Layout,
    order: InsertingOrder,
    r: Result<(Box<Vec<u8>>, WriteElementState), CancellationError>,
) -> bool {
    let hs = header.size_spec() as int;
    let es = element.size_spec() as int;
    let ho = crate::chunk::dst_offset(header.size_spec(), element.align_spec());
    let k = before.element_log.len() as int;
    let new_el = after.element_log.skip(k);
    &&& after.element_log.take(k) == before.element_log
    &&& new_el.len() == after.written - before.written
    &&& forall|i: int| 0 <= i < new_el.len() ==> (#[trigger] new_el[i]).0 == zeros(es)
    &&& r != Err::<(Box<Vec<u8>>, WriteElementState), CancellationError>(CancellationError::CancelledBeforeWrite) ==> {
        &&& after.header_log.len() == before.header_log.len() + 1
        &&& after.header_log.last().0 == zeros(hs)
    }
    &&& (r is Ok || r matches Err(CancellationError::CancelledByFinalizer(_))) ==> {
        &&& after.finalizer_log.len() == before.finalizer_log.len() + 1
        &&& after.finalizer_log.last().0 == laid_out(
            after.header_log.last().1,
            hs,
            ho,
            left_by(new_el),
            es,
            order == InsertingOrder::Original,
        )
    }
    &&& r matches Ok((b, st)) ==> b.content()@ == bytes_at(after.finalizer_log.last().1, 0, ho + st.count_spec() * es)
    &&& (r is Ok || r == Err::<(Box<Vec<u8>>, WriteElementState), CancellationError>(
        CancellationError::CancelledBeforeWrite,
    )) ==> after.element_drop_log == before.element_drop_log && after.header_drop_log == before.header_drop_log
    &&& r matches Err(CancellationError::CancelledByHeader(_)) ==> {
        &&& after.element_drop_log == before.element_drop_log + element_bytes(left_by(new_el), es)
        &&& after.header_drop_log == before.header_drop_log
    }
    &&& r matches Err(CancellationError::CancelledByFinalizer(_)) ==> {
        let fin = after.finalizer_log.last().1;
        &&& after.element_drop_log == before.element_drop_log + elements_in(
            fin,
            ho,
            es,
            new_el.len() as int,
            order == InsertingOrder::Original,
        )
        &&& after.header_drop_log == before.header_drop_log.push(bytes_at(fin, 0, hs))
    }
}

/// A run with the layouts `header` and `element` took the builder from
/// `before` to `after`, returning `r`, as [protocol_followed] and
/// [memory_followed] say, when the builder counts its calls.
pub open spec fn ran_as<B: BuilderDST>(
    before: B,
    after: B,
    header: Layout,
    element: Layout,
    r: Result<(Box<Vec<u8>>, WriteElementState), CancellationError>,
) -> bool {
    &&& after.counts_calls() == before.counts_calls()
    &&& before.counts_calls() ==> after.shape() == before.shape() && protocol_followed(
        before.calls(),
        after.calls(),
        r,
    ) && memory_followed(before.calls(), after.calls(), header, element, before.shape().order, r)
}

/// A run cancelled before any write that left the builder as it was ran as
/// [ran_as] says, whatever the layouts.
pub proof fn lemma_ran_untouched<B: BuilderDST>(b: B, header: Layout, element: Layout)
    ensures
        ran_as(b, b, header, element, Err(CancellationError::CancelledBeforeWrite)),
{
    let log = b.calls().element_log;
    assert(log.take(log.len() as int) =~= log);
    assert(log.skip(log.len() as int) =~= Seq::<(Seq<u8>, Seq<u8>)>::empty());
}

/// [ran_as] with the builder's own layouts.
pub open spec fn ran<B: BuilderDST>(
    before: B,
    after: B,
    r: Result<(Box<Vec<u8>>, WriteElementState), CancellationError>,
) -> bool {
    ran_as(before, after, before.shape().header, before.shape().element, r)
}

/// `after` is `before` with the element calls that `st` reports counted,
/// and logged as given `es` zero bytes each and leaving `outs`, when it
/// counts its calls.
pub open spec fn asked<B: BuilderDST>(before: B, after: B, st: WriteElementState, outs: Seq<Seq<u8>>, es: int) -> bool {
    &&& after.counts_calls() == before.counts_calls()
    &&& before.counts_calls() ==> {
        &&& after.shape() == before.shape()
        &&& after.calls().counts() == before.calls().counts().elements(st)
        &&& after.calls().element_log == before.calls().element_log + given_zeros(outs, es)
        &&& after.calls().header_log == before.calls().header_log
        &&& after.calls().finalizer_log == before.calls().finalizer_log
        &&& after.calls().element_drop_log == before.calls().element_drop_log
        &&& after.calls().header_drop_log == before.calls().header_drop_log
    }
}

/// Calls `drop_element` on the written elements, in the order they were
/// written. `elements` holds them in that order.
fn drop_written<B: BuilderDST>(builder: &mut B, elements: &Vec<Vec<u8>>, esize: usize)
    ensures
        dropped(*old(builder), *final(builder), element_bytes(contents(elements@), esize as int)),
{
    let ghost b0 = *builder;
    let ghost all = element_bytes(contents(elements@), esize as int);
    let mut k: usize = 0;
    proof {
        assert(all.take(0) =~= Seq::<Seq<u8>>::empty());
        assert(b0.calls().element_drop_log + all.take(0) =~= b0.calls().element_drop_log);
    }
    while k < elements.len()
        invariant
            k <= elements.len(),
            all == element_bytes(contents(elements@), esize as int),
            dropped(b0, *builder, all.take(k as int)),
        decreases elements.len() - k,
    {
        let mut memory = read_bytes(&elements[k], 0, esize);
        proof {
            assert(all[k as int] == memory@);
            assert(all.take(k as int + 1) =~= all.take(k as int).push(memory@));
        }
        builder.drop_element(&mut memory);
        k = k + 1;
    }
    proof {
        assert(all.take(elements.len() as int) =~= all);
    }
}

/// Calls `drop_element` `n` times on empty memory, for elements of no size.
fn drop_empty<B: BuilderDST>(builder: &mut B, n: usize)
    ensures
        dropped(*old(builder), *final(builder), Seq::new(n as nat, |k: int| Seq::<u8>::empty())),
{
    let ghost b0 = *builder;
    let mut k: usize = 0;
    proof {
        assert(Seq::new(0, |k: int| Seq::<u8>::empty()) =~= Seq::<Seq<u8>>::empty());
        assert(b0.calls().element_drop_log + Seq::new(0, |k: int| Seq::<u8>::empty()) =~= b0.calls().element_drop_log);
    }
    while k < n
        invariant
            k <= n,
            dropped(b0, *builder, Seq::new(k as nat, |k: int| Seq::<u8>::empty())),
        decreases n - k,
    {
        proof {
            assert(Seq::new((k + 1) as nat, |k: int| Seq::<u8>::empty()) =~= Seq::new(k as nat, |k: int| Seq::<u8>::empty()).push(Seq::<u8>::empty()));
        }
        let mut nothing: Vec<u8> = Vec::new();
        builder.drop_element(&mut nothing);
        k = k + 1;
    }
}

/// Calls `drop_element` on the elements as they now stand in `memory`, in
/// the order they were written.
fn drop_from_memory<B: BuilderDST>(
    builder: &mut B,
    memory: &Vec<u8>,
    header_offset: usize,
    esize: usize,
    written: usize,
    in_order: bool,
)
    requires
        header_offset + written * esize <= usize::MAX,
    ensures
        dropped(
            *old(builder),
            *final(builder),
            elements_in(memory@, header_offset as int, esize as int, written as int, in_order),
        ),
{
    let ghost b0 = *builder;
    let ghost all = elements_in(memory@, header_offset as int, esize as int, written as int, in_order);
    let mut k: usize = 0;
    proof {
        assert(all.take(0) =~= Seq::<Seq<u8>>::empty());
        assert(b0.calls().element_drop_log + all.take(0) =~= b0.calls().element_drop_log);
    }
    while k < written
        invariant
            k <= written,
            header_offset + written * esize <= usize::MAX,
            all == elements_in(memory@, header_offset as int, esize as int, written as int, in_order),
            dropped(b0, *builder, all.take(k as int)),
        decreases written - k,
    {
        let slot = if in_order { k } else { written - 1 - k };
        proof {
            assert(slot * esize <= written * esize) by (nonlinear_arith)
                requires
                    slot < written,
                    esize >= 0,
            ;
        }
        let mut bytes = read_bytes(memory, header_offset + slot * esize, esize);
        proof {
            assert(all[k as int] == bytes@);
            assert(all.take(k as int + 1) =~= all.take(k as int).push(bytes@));
        }
        builder.drop_element(&mut bytes);
        k = k + 1;
    }
    proof {
        assert(all.take(written as int) =~= all);
    }
}

/// Elements of no size hold no byte, however they were written or where
/// they are read.
proof fn lemma_no_bytes(outs: Seq<Seq<u8>>, memory: Seq<u8>, ho: int, in_order: bool)
    ensures
        element_bytes(outs, 0) == Seq::new(outs.len(), |k: int| Seq::<u8>::empty()),
        elements_in(memory, ho, 0, outs.len() as int, in_order) == Seq::new(outs.len(), |k: int| Seq::<u8>::empty()),
{
    assert forall|k: int| 0 <= k < outs.len() implies #[trigger] element_bytes(outs, 0)[k] == Seq::<u8>::empty() by {
        assert(bytes_at(outs[k], 0, 0) =~= Seq::<u8>::empty());
    }
    assert(element_bytes(outs, 0) =~= Seq::new(outs.len(), |k: int| Seq::<u8>::empty()));
    assert forall|k: int| 0 <= k < outs.len() implies #[trigger] elements_in(memory, ho, 0, outs.len() as int, in_order)[k]
        == Seq::<u8>::empty() by {
        assert(bytes_at(memory, ho + slot(k, outs.len() as int, in_order) * 0, 0) =~= Seq::<u8>::empty());
    }
    assert(elements_in(memory, ho, 0, outs.len() as int, in_order) =~= Seq::new(outs.len(), |k: int| Seq::<u8>::empty()));
}

/// For elements of no size, what they hold makes no difference to the
/// memory laid out.
proof fn lemma_laid_out_no_size(header: Seq<u8>, hsize: int, ho: int, x: Seq<Seq<u8>>, y: Seq<Seq<u8>>, in_order: bool)
    requires
        ho >= 0,
    ensures
        laid_out(header, hsize, ho, x, 0, in_order) == laid_out(header, hsize, ho, y, 0, in_order),
{
    let a = laid_out(header, hsize, ho, x, 0, in_order);
    let b = laid_out(header, hsize, ho, y, 0, in_order);
    assert(x.len() * 0 == 0);
    assert(y.len() * 0 == 0);
    assert(a.len() == b.len());
    assert forall|i: int| 0 <= i < a.len() implies a[i] == b[i] by {
        assert(i < ho);
    }
    assert(a =~= b);
}

/// Where [finish] places a value of `n` elements of `es` bytes written below
/// `aligned`: the header `header_offset` bytes below them, rounded down to
/// the value's alignment `align`.
pub open spec fn finished_at(aligned: int, n: int, es: int, header_offset: int, align: int) -> int {
    align_down(aligned - n * es - header_offset, align)
}

/// Lowest address at which the elements of a value may start in a chunk
/// whose storage starts at `start`: after a header placed at the first
/// address aligned to the value's alignment.
pub open spec fn body_start(start: int, info: DSTInfo) -> int {
    align_up(start, info.align as int) + info.header_offset
}

/// What [finish] does with the chunk in state `c` and the plan `plan` for
/// `info`: returns `r` and leaves the chunk in state `after`.
pub open spec fn finish_outcome(
    c: ChunkState,
    info: DSTInfo,
    plan: DstPlan,
    r: Result<(Box<Vec<u8>>, WriteElementState), CancellationError>,
    after: ChunkState,
) -> bool {
    &&& r is Err ==> after == c
    &&& match plan {
        DstPlan::Rare { count } => {
            &&& after == c
            &&& r matches Ok((b, st)) ==> b.address() == DANGLING && b.content()@.len() == 0 && (count
                ==> st == WriteElementState::NeverStarted) && (!count ==> st is Started)
            &&& r matches Err(e) ==> e == CancellationError::CancelledByHeader(WriteElementState::NeverStarted)
                || e matches CancellationError::CancelledByFinalizer(_)
        },
        DstPlan::Normal { aligned_ptr } => {
            let es = info.element_layout.size_spec() as int;
            let ho = info.header_offset as int;
            let body = body_start(c.start, info);
            let room = aligned_ptr - body;
            &&& r matches Ok((b, st)) ==> {
                let n = st.count_spec() as int;
                &&& n * es <= room
                &&& b.address() == finished_at(aligned_ptr as int, n, es, ho, info.align as int)
                &&& (b.address() as int) % (info.align as int) == 0
                &&& c.start <= b.address()
                &&& b.address() + b.content()@.len() <= aligned_ptr
                &&& b.content()@.len() == ho + n * es
                &&& after == c.with_bump(b.address() as int)
                &&& (st == WriteElementState::NeverStarted <==> (aligned_ptr <= body && es != 0))
                &&& (st matches WriteElementState::Started { count, completed } ==> (!completed
                    && es != 0 ==> room - count * es < es))
            }
            &&& r matches Err(e) ==> match e {
                CancellationError::CancelledBeforeWrite => false,
                CancellationError::CancelledByHeader(st) => (st == WriteElementState::NeverStarted
                    <==> (aligned_ptr <= body && es != 0)) && st.count_spec() * es <= room,
                CancellationError::CancelledByFinalizer(st) => (st
                    == WriteElementState::NeverStarted <==> (aligned_ptr <= body && es != 0))
                    && st.count_spec() * es <= room,
            }
        },
    }
}

/// Runs a builder on the memory `plan` reserved in `chunk`.
///
/// In the normal path, elements are written from `aligned_ptr` downward
/// while they fit above the header and the builder goes on; then the header
/// is written and the finalizer runs on the whole value. On success the bump
/// pointer moves to the start of the value, aligned to the value's
/// alignment; when the header writer or the finalizer refuses, the written
/// parts are dropped, elements first in the order written, and the chunk is
/// left as it was. Each element is written into `es` zeroed bytes, the header
/// into `hs` zeroed bytes, and the finalizer gets the memory that [lay_out]
/// gives. A state is `NeverStarted` exactly when no element was asked for.
/// For a builder that keeps a record of its calls, [ran_as] states the calls
/// made, how the builder's answers decide the result, and the memory each
/// call was given.
pub fn finish<B: BuilderDST>(chunk: &mut Chunk, plan: DstPlan, info: &DSTInfo, builder: &mut B)
    -> (r: Result<(Box<Vec<u8>>, WriteElementState), CancellationError>)
    requires
        old(chunk).wf(),
        info.consistent(),
        dst_plan_spec(old(chunk)@, *info) == Some(plan),
    ensures
        final(chunk).wf(),
        finish_outcome(old(chunk)@, *info, plan, r, final(chunk)@),
        ran_as(*old(builder), *final(builder), info.header_layout, info.element_layout, r),
{
    match plan {
        DstPlan::Rare { count } => finish_rare(builder, count, info),
        DstPlan::Normal { aligned_ptr } => finish_normal(chunk, aligned_ptr, info, builder),
    }
}

/// A value of no size: the header and the finalizer see empty memory; with
/// `count` unset, elements of no size are asked for until the builder stops.
fn finish_rare<B: BuilderDST>(builder: &mut B, count: bool, info: &DSTInfo)
    -> (r: Result<(Box<Vec<u8>>, WriteElementState), CancellationError>)
    requires
        info.consistent(),
        info.header_offset == 0,
        !count ==> info.element_layout.size_spec() == 0,
    ensures
        r matches Ok((b, st)) ==> b.address() == DANGLING && b.content()@.len() == 0 && (count ==> st
            == WriteElementState::NeverStarted) && (!count ==> st is Started),
        r matches Err(e) ==> e == CancellationError::CancelledByHeader(WriteElementState::NeverStarted)
            || e matches CancellationError::CancelledByFinalizer(_),
        ran_as(*old(builder), *final(builder), info.header_layout, info.element_layout, r),
{
    let ghost b0 = *builder;
    let ghost hs = info.header_layout.size_spec() as int;
    let ghost es = info.element_layout.size_spec() as int;
    proof {
        let ea = info.element_layout.align_spec() as int;
        crate::layout::lemma_pow2_positive(ea);
        lemma_align(hs, ea);
        assert(zeros(0) =~= Seq::<u8>::empty());
    }
    let mut empty: Vec<u8> = Vec::new();
    if !builder.write_header(&mut empty) {
        let r = Err(CancellationError::CancelledByHeader(WriteElementState::NeverStarted));
        proof {
            if b0.counts_calls() {
                assert(builder.calls().element_log.skip(b0.calls().element_log.len() as int) =~= Seq::<(Seq<u8>, Seq<u8>)>::empty());
                assert(builder.calls().element_log.take(b0.calls().element_log.len() as int) =~= b0.calls().element_log);
            }
        }
        return r;
    }
    let ghost b1 = *builder;
    let ghost mut outs: Seq<Seq<u8>> = Seq::empty();
    let mut state = WriteElementState::NeverStarted;
    if !count {
        let mut calls: usize = 0;
        let mut ran_out = false;
        loop
            invariant_except_break
                !ran_out,
            invariant
                calls <= usize::MAX,
                outs.len() == calls,
                asked(b1, *builder, WriteElementState::Started { count: calls, completed: ran_out }, outs, 0),
            decreases usize::MAX - calls,
        {
            if calls == usize::MAX {
                break;
            }
            let mut nothing: Vec<u8> = Vec::new();
            if !builder.write_element(&mut nothing) {
                ran_out = true;
                break;
            }
            proof {
                assert(zeros(0) =~= Seq::<u8>::empty());
                assert(given_zeros(outs.push(nothing@), 0) =~= given_zeros(outs, 0).push((zeros(0), nothing@)));
                outs = outs.push(nothing@);
            }
            calls = calls + 1;
        }
        state = WriteElementState::Started { count: calls, completed: ran_out };
    } else {
        proof {
            assert(given_zeros(outs, 0) =~= Seq::<(Seq<u8>, Seq<u8>)>::empty());
            assert(b1.calls().element_log + given_zeros(outs, 0) =~= b1.calls().element_log);
        }
    }
    let ghost b2 = *builder;
    proof {
        let n = state.count_spec() as int;
        assert(n * es == 0) by (nonlinear_arith)
            requires
                count ==> n == 0,
                !count ==> es == 0,
        ;
        if b0.counts_calls() {
            let k = b0.calls().element_log.len() as int;
            assert(b2.calls().element_log =~= b0.calls().element_log + given_zeros(outs, 0));
            assert(b2.calls().element_log.skip(k) =~= given_zeros(outs, 0));
            assert(b2.calls().element_log.take(k) =~= b0.calls().element_log);
            assert(left_by(given_zeros(outs, 0)) =~= outs);
            assert(laid_out(b2.calls().header_log.last().1, hs, 0, outs, es, b0.shape().order == InsertingOrder::Original)
                =~= Seq::<u8>::empty());
        }
    }
    let mut whole: Vec<u8> = Vec::new();
    if builder.finalizer(&mut whole) {
        let r = Ok((Box::from_parts(DANGLING, Vec::new()), state));
        proof {
            assert(r->Ok_0.0.content()@ =~= bytes_at(whole@, 0, 0));
        }
        r
    } else {
        let ghost fin = whole@;
        proof {
            lemma_no_bytes(outs, fin, 0, b0.shape().order == InsertingOrder::Original);
            assert(elements_in(fin, 0, es, outs.len() as int, b0.shape().order == InsertingOrder::Original)
                =~= elements_in(fin, 0, 0, outs.len() as int, b0.shape().order == InsertingOrder::Original));
            assert(bytes_at(fin, 0, hs) =~= Seq::<u8>::empty());
        }
        drop_empty(builder, state.count());
        let mut header: Vec<u8> = Vec::new();
        builder.drop_header(&mut header);
        Err(CancellationError::CancelledByFinalizer(state))
    }
}

#[verifier::rlimit(60)]
#[verifier::spinoff_prover]
fn finish_normal<B: BuilderDST>(chunk: &mut Chunk, aligned_ptr: usize, info: &DSTInfo, builder: &mut B)
    -> (r: Result<(Box<Vec<u8>>, WriteElementState), CancellationError>)
    requires
        old(chunk).wf(),
        info.consistent(),
        dst_plan_spec(old(chunk)@, *info) == Some(DstPlan::Normal { aligned_ptr }),
    ensures
        final(chunk).wf(),
        r is Err ==> final(chunk)@ == old(chunk)@,
        ({
            let c = old(chunk)@;
            let es = info.element_layout.size_spec() as int;
            let ho = info.header_offset as int;
            let body = body_start(c.start, *info);
            let room = aligned_ptr - body;
            &&& r matches Ok((b, st)) ==> {
                let n = st.count_spec() as int;
                &&& n * es <= room
                &&& b.address() == finished_at(aligned_ptr as int, n, es, ho, info.align as int)
                &&& (b.address() as int) % (info.align as int) == 0
                &&& c.start <= b.address()
                &&& b.address() + b.content()@.len() <= aligned_ptr
                &&& b.content()@.len() == ho + n * es
                &&& final(chunk)@ == c.with_bump(b.address() as int)
                &&& (st == WriteElementState::NeverStarted <==> (aligned_ptr <= body && es != 0))
                &&& (st matches WriteElementState::Started { count, completed } ==> (!completed
                    && es != 0 ==> room - count * es < es))
            }
            &&& r matches Err(e) ==> match e {
                CancellationError::CancelledBeforeWrite => false,
                CancellationError::CancelledByHeader(st) => (st == WriteElementState::NeverStarted
                    <==> (aligned_ptr <= body && es != 0)) && st.count_spec() * es <= room,
                CancellationError::CancelledByFinalizer(st) => (st == WriteElementState::NeverStarted
                    <==> (aligned_ptr <= body && es != 0)) && st.count_spec() * es <= room,
            }
        }),
        ran_as(*old(builder), *final(builder), info.header_layout, info.element_layout, r),
{
    let ghost c = chunk@;
    let ghost b0 = *builder;
    let start = chunk.start_addr();
    let header_offset = info.header_offset;
    let esize = info.element_layout.size();
    let hsize = info.header_layout.size();
    let align = info.align;
    let ghost min_size = info.min_layout.size_spec() as int;
    proof {
        lemma_align(info.header_layout.size_spec() as int, info.element_layout.align_spec() as int);
        lemma_align(
            dst_offset(info.header_layout.size_spec(), info.element_layout.align_spec())
                + stride(info.element_layout.size_spec(), info.element_layout.align_spec())
                * info.min_element,
            dst_align(info.header_layout.align_spec(), info.element_layout.align_spec()),
        );
        assert(stride(info.element_layout.size_spec(), info.element_layout.align_spec())
            * info.min_element >= 0) by (nonlinear_arith)
            requires
                stride(info.element_layout.size_spec(), info.element_layout.align_spec()) >= 0,
                info.min_element >= 0,
        ;
        crate::layout::lemma_pow2_positive(align as int);
        lemma_align(start as int, align as int);
        lemma_align(c.bump, align as int);
        crate::chunk::lemma_sub_multiples(aligned_ptr as int, min_size, align as int);
        lemma_align((aligned_ptr - min_size) as int, align as int);
        assert(align_up(start as int, align as int) <= aligned_ptr - min_size);
    }
    let base = match crate::layout::checked_align_up(start, align) {
        Some(v) => v,
        None => {
            proof { assert(false); }
            return Err(CancellationError::CancelledBeforeWrite);
        },
    };
    // Start of the elements: right after a header placed at an aligned address.
    let new_start = base + header_offset;
    let mut current = aligned_ptr;
    let mut written: usize = 0;
    let mut elements: Vec<Vec<u8>> = Vec::new();
    let ghost mut outs: Seq<Seq<u8>> = Seq::empty();
    let mut state = WriteElementState::NeverStarted;
    proof {
        assert(given_zeros(outs, esize as int) =~= Seq::<(Seq<u8>, Seq<u8>)>::empty());
        assert(b0.calls().element_log + given_zeros(outs, esize as int) =~= b0.calls().element_log);
        assert(contents(elements@) =~= outs);
    }
    if current > new_start {
        state = WriteElementState::Started { count: 0, completed: false };
        loop
            invariant_except_break
                state == (WriteElementState::Started { count: 0, completed: false }),
                esize == 0 ==> new_start < current,
                asked(b0, *builder, WriteElementState::Started { count: written, completed: false }, outs, esize as int),
            invariant
                new_start <= current <= aligned_ptr,
                current == aligned_ptr - written * esize,
                elements@.len() == (if esize > 0 { written as int } else { 0 }),
                written <= usize::MAX,
                outs.len() == written,
                esize > 0 ==> contents(elements@) == outs,
            ensures
                new_start <= current <= aligned_ptr,
                current == aligned_ptr - written * esize,
                elements@.len() == (if esize > 0 { written as int } else { 0 }),
                esize > 0 && !(state matches WriteElementState::Started { completed: true, .. }) ==> current
                    - new_start < esize,
                state matches WriteElementState::Started { count, .. } ==> count == written,
                state is Started,
                asked(b0, *builder, state, outs, esize as int),
                outs.len() == written,
                esize > 0 ==> contents(elements@) == outs,
            decreases usize::MAX - written, current,
        {
            if written == usize::MAX || (esize > 0 && current - new_start < esize) {
                proof {
                    if esize > 0 && written == usize::MAX {
                        assert(written * esize >= written) by (nonlinear_arith)
                            requires
                                esize >= 1,
                                written >= 0,
                        ;
                    }
                }
                state = WriteElementState::Started { count: written, completed: false };
                break;
            }
            let next = current - esize;
            let mut memory: Vec<u8> = vec![0u8; esize];
            proof {
                assert(memory@ =~= zeros(esize as int));
            }
            if !builder.write_element(&mut memory) {
                state = WriteElementState::Started { count: written, completed: true };
                break;
            }
            proof {
                assert(given_zeros(outs.push(memory@), esize as int) =~= given_zeros(outs, esize as int).push(
                    (zeros(esize as int), memory@),
                ));
                if esize > 0 {
                    assert(contents(elements@.push(memory)) =~= contents(elements@).push(memory@));
                }
                outs = outs.push(memory@);
            }
            if esize > 0 {
                elements.push(memory);
            }
            proof {
                assert((written + 1) * esize == written * esize + esize) by (nonlinear_arith);
            }
            current = next;
            written = written + 1;
        }
    } else if esize == 0 {
        let mut calls: usize = 0;
        let mut ran_out = false;
        loop
            invariant_except_break
                !ran_out,
            invariant
                calls <= usize::MAX,
                outs.len() == calls,
                esize == 0,
                asked(b0, *builder, WriteElementState::Started { count: calls, completed: ran_out }, outs, 0),
            decreases usize::MAX - calls,
        {
            if calls == usize::MAX {
                break;
            }
            let mut nothing: Vec<u8> = Vec::new();
            if !builder.write_element(&mut nothing) {
                ran_out = true;
                break;
            }
            proof {
                assert(zeros(0) =~= Seq::<u8>::empty());
                assert(given_zeros(outs.push(nothing@), 0) =~= given_zeros(outs, 0).push((zeros(0), nothing@)));
                outs = outs.push(nothing@);
            }
            calls = calls + 1;
        }
        written = calls;
        state = WriteElementState::Started { count: calls, completed: ran_out };
    }
    proof {
        if esize == 0 {
            assert(written * esize == 0) by (nonlinear_arith)
                requires
                    esize == 0,
            ;
        }
        assert(zeros(0) =~= Seq::<u8>::empty());
        if b0.counts_calls() {
            let k = b0.calls().element_log.len() as int;
            assert(builder.calls().element_log.skip(k) =~= given_zeros(outs, esize as int));
            assert(builder.calls().element_log.take(k) =~= b0.calls().element_log);
            assert(left_by(given_zeros(outs, esize as int)) =~= outs);
        }
    }
    let in_order = keeps_write_order(builder.inserting_order());
    let mut header_memory: Vec<u8> = vec![0u8; hsize];
    proof {
        assert(header_memory@ =~= zeros(hsize as int));
    }
    if !builder.write_header(&mut header_memory) {
        proof {
            if esize == 0 {
                lemma_no_bytes(outs, header_memory@, 0, in_order);
            } else {
                assert(element_bytes(contents(elements@), esize as int) == element_bytes(outs, esize as int));
            }
        }
        if esize > 0 {
            drop_written(builder, &elements, esize);
        } else {
            drop_empty(builder, written);
        }
        return Err(CancellationError::CancelledByHeader(state));
    }
    // Lay the header and the elements out as they stand in the value.
    let memory_len = header_offset + written * esize;
    let mut memory = lay_out(&header_memory, hsize, header_offset, &elements, esize, in_order);
    proof {
        if esize == 0 {
            lemma_laid_out_no_size(header_memory@, hsize as int, header_offset as int, contents(elements@), outs, in_order);
        }
        assert(memory@ == laid_out(header_memory@, hsize as int, header_offset as int, outs, esize as int, in_order));
    }
    if !builder.finalizer(&mut memory) {
        proof {
            if esize == 0 {
                lemma_no_bytes(outs, memory@, header_offset as int, in_order);
            }
        }
        if esize > 0 {
            drop_from_memory(builder, &memory, header_offset, esize, written, in_order);
        } else {
            drop_empty(builder, written);
        }
        let mut header_bytes = read_bytes(&memory, 0, hsize);
        builder.drop_header(&mut header_bytes);
        return Err(CancellationError::CancelledByFinalizer(state));
    }
    let memory = read_bytes(&memory, 0, memory_len);
    let header_start = crate::layout::align_down_exec(current - header_offset, align);
    proof {
        lemma_align((current - header_offset) as int, align as int);
        assert(base as int % align as int == 0);
        assert(base <= header_start);
    }
    chunk.move_bump_to(header_start);
    Ok((Box::from_parts(header_start, memory), state))
}

} // verus!
