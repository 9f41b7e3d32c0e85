//! A chunk of arena storage, allocated from the top down by moving a bump
//! pointer toward the start of the storage.
use vstd::prelude::*;
use vstd::arithmetic::power2::is_pow2;
use crate::layout::{Layout, align_up, align_down, align_down_exec, checked_align_up, lemma_align, valid_layout_int, extend_ok, max_align};
use vstd::layout::valid_layout;
use crate::AllocError;
use crate::InsertingOrder;
use crate::boxed::Box;
use core::ops::Range;

verus! {

/// Size of the bookkeeping that precedes the storage of every chunk.
pub const CHUNK_HEADER_SIZE: usize = 24;

/// Alignment of a chunk.
pub const CHUNK_HEADER_ALIGN: usize = 8;

/// Address given to empty allocations of bytes: never read, never zero.
pub const DANGLING: usize = 1;

/// Abstract state of a chunk: where its storage starts, how long it is, and
/// where the bump pointer stands. Free space is `[start, bump)`, handed out
/// space is `[bump, start + len)`.
pub struct ChunkState {
    pub start: int,
    pub len: int,
    pub bump: int,
}

impl ChunkState {
    pub open spec fn wf(self) -> bool {
        &&& DANGLING < self.start
        &&& 0 <= self.len
        &&& self.start + self.len <= usize::MAX
        &&& self.start <= self.bump <= self.start + self.len
    }

    /// One past the last byte of storage.
    pub open spec fn end(self) -> int {
        self.start + self.len
    }

    /// Bytes still free below the bump pointer.
    pub open spec fn remaining(self) -> int {
        self.bump - self.start
    }

    /// Bytes handed out above the bump pointer.
    pub open spec fn used(self) -> int {
        self.end() - self.bump
    }

    /// The same chunk with the bump pointer moved.
    pub open spec fn with_bump(self, bump: int) -> ChunkState {
        ChunkState { start: self.start, len: self.len, bump }
    }

    /// The same chunk with all its storage free again.
    pub open spec fn cleaned(self) -> ChunkState {
        self.with_bump(self.end())
    }
}

/// Whether the storage length `size` gives a valid chunk layout.
pub open spec fn chunk_size_ok(size: int) -> bool {
    &&& valid_layout_int(size, 1)
    &&& extend_ok(CHUNK_HEADER_SIZE as nat, CHUNK_HEADER_ALIGN as nat, size as nat, 1)
}

/// State of a new chunk with `size` bytes of storage.
pub open spec fn fresh_chunk(size: int) -> ChunkState {
    ChunkState {
        start: CHUNK_HEADER_SIZE as int,
        len: size,
        bump: CHUNK_HEADER_SIZE + size,
    }
}

/// Bytes that a chunk with `len` bytes of storage occupies, bookkeeping
/// included.
pub open spec fn chunk_total_size(len: int) -> int {
    align_up(CHUNK_HEADER_SIZE + len, CHUNK_HEADER_ALIGN as int)
}

/// The bump pointer rounded down to `align`.
pub open spec fn aligned_bump(c: ChunkState, align: int) -> int {
    align_down(c.bump, align)
}

/// Whether a block of `size` bytes aligned to `align` fits below the bump
/// pointer.
pub open spec fn fits(c: ChunkState, size: int, align: int) -> bool {
    &&& aligned_bump(c, align) >= c.start
    &&& align_up(size, align) <= aligned_bump(c, align) - c.start
}

/// Where a block of `size` bytes aligned to `align` is placed.
pub open spec fn placed_at(c: ChunkState, size: int, align: int) -> int {
    aligned_bump(c, align) - align_up(size, align)
}

/// How many elements of `esize` bytes fit in `room` bytes, with `cap` for
/// elements of no size.
pub open spec fn fit_count(room: int, esize: int, cap: int) -> int {
    if esize == 0 {
        cap
    } else {
        room / esize
    }
}

pub open spec fn min_int(a: int, b: int) -> int {
    if a <= b {
        a
    } else {
        b
    }
}

/// Elements that `alloc_remaining_slice_with_layout` takes from a chunk whose
/// aligned bump pointer is not below its start.
pub open spec fn remaining_slice_count(c: ChunkState, esize: int, align: int, max_len: int) -> int {
    min_int(fit_count(aligned_bump(c, align) - c.start, esize, max_len), max_len)
}

/// Alignment and header offset of a header of layout `(hs, ha)` followed by
/// elements of layout `(es, ea)`, when those layouts combine.
pub open spec fn dst_geometry_ok(hs: nat, ha: nat, es: nat, ea: nat) -> bool {
    &&& valid_layout_int(align_up(es as int, ea as int), ea as int)
    &&& extend_ok(hs, ha, align_up(es as int, ea as int) as nat, ea)
}

pub open spec fn dst_align(ha: nat, ea: nat) -> int {
    max_align(ha, ea) as int
}

pub open spec fn dst_offset(hs: nat, ea: nat) -> int {
    align_up(hs as int, ea as int)
}


/// Result of `alloc_remaining_slice_with_layout`: address, bytes, count.
pub open spec fn remaining_outcome(c: ChunkState, es: int, ea: int, max_len: int) -> (usize, usize, usize) {
    if aligned_bump(c, ea) < c.start {
        (DANGLING, 0usize, 0usize)
    } else {
        let n = remaining_slice_count(c, es, ea, max_len);
        ((aligned_bump(c, ea) - n * es) as usize, (n * es) as usize, n as usize)
    }
}

/// State after `alloc_remaining_slice_with_layout`.
pub open spec fn remaining_after(c: ChunkState, es: int, ea: int, max_len: int) -> ChunkState {
    if aligned_bump(c, ea) < c.start {
        c
    } else {
        c.with_bump(remaining_outcome(c, es, ea, max_len).0 as int)
    }
}

/// Result of `try_alloc_remaining_slice_with_layout` for the range `lo..hi`.
pub open spec fn slice_outcome(c: ChunkState, es: int, ea: int, lo: int, hi: int) -> Option<(usize, usize, usize)> {
    let aligned = aligned_bump(c, ea);
    if aligned < c.start {
        if lo == 0 { Some((DANGLING, 0usize, 0usize)) } else { None }
    } else {
        let n = min_int(fit_count(aligned - c.start, es, hi), hi);
        if n < lo {
            None
        } else {
            Some(((aligned - n * es) as usize, (n * es) as usize, n as usize))
        }
    }
}

/// Result of `try_alloc_remaining_dst_with_layout` for the range `lo..hi`:
/// as many elements as fit between the header and the bump pointer, at most
/// `hi`; the value is its header, padded to the elements' alignment, then the
/// elements, and it starts at an address aligned to both layouts.
pub open spec fn dst_outcome(c: ChunkState, hs: nat, ha: nat, es: nat, ea: nat, lo: int, hi: int) -> Option<(usize, usize, usize)> {
    if !dst_geometry_ok(hs, ha, es, ea) {
        None
    } else {
        let a = dst_align(ha, ea);
        let ho = dst_offset(hs, ea);
        let aligned = aligned_bump(c, a);
        let base = align_up(c.start, a);
        if base + ho > usize::MAX || aligned < base + ho {
            None
        } else {
            let max_fit = if es == 0 { usize::MAX as int } else { (aligned - base - ho) / (es as int) };
            if max_fit < lo {
                None
            } else {
                let n = min_int(hi, max_fit);
                let total = ho + n * es;
                Some((align_down(aligned - total, a) as usize, total as usize, n as usize))
            }
        }
    }
}

/// State after an operation that returned `r`: the bump pointer moves to the
/// returned address, unless nothing was placed in the chunk.
pub open spec fn after_placing(c: ChunkState, r: Option<(usize, usize, usize)>) -> ChunkState {
    match r {
        Some(t) => if (t.0 as int) < c.start { c } else { c.with_bump(t.0 as int) },
        None => c,
    }
}

/// The count granted by `try_alloc_remaining_slice_with_layout` lies in
/// the range asked for.
pub proof fn lemma_slice_outcome_count(c: ChunkState, es: int, ea: int, lo: int, hi: int)
    requires
        0 <= lo <= hi <= usize::MAX,
        es >= 0,
        ea > 0,
        c.wf(),
    ensures
        slice_outcome(c, es, ea, lo, hi) matches Some(out) ==> lo <= out.2 <= hi,
{
    lemma_align(c.bump, ea);
    if es > 0 && aligned_bump(c, ea) >= c.start {
        vstd::arithmetic::div_mod::lemma_div_pos_is_pos(aligned_bump(c, ea) - c.start, es);
    }
}

/// [lemma_slice_outcome_count] for every chunk state.
pub proof fn lemma_slice_count_any(es: int, ea: int, lo: int, hi: int)
    requires
        0 <= lo <= hi <= usize::MAX,
        es >= 0,
        ea > 0,
    ensures
        forall|c: ChunkState| c.wf() ==> (#[trigger] slice_outcome(c, es, ea, lo, hi) matches Some(out) ==> lo
            <= out.2 <= hi),
{
    assert forall|c: ChunkState| c.wf() implies (#[trigger] slice_outcome(c, es, ea, lo, hi) matches Some(out) ==> lo
        <= out.2 <= hi) by {
        lemma_slice_outcome_count(c, es, ea, lo, hi);
    }
}

/// The count granted by `try_alloc_remaining_dst_with_layout` lies in the
/// range asked for.
pub proof fn lemma_dst_outcome_count(c: ChunkState, hs: nat, ha: nat, es: nat, ea: nat, lo: int, hi: int)
    requires
        0 <= lo <= hi <= usize::MAX,
        c.wf(),
    ensures
        dst_outcome(c, hs, ha, es, ea, lo, hi) matches Some(out) ==> lo <= out.2 <= hi,
{
}

/// [lemma_dst_outcome_count] for every chunk state.
pub proof fn lemma_dst_count_any(hs: nat, ha: nat, es: nat, ea: nat, lo: int, hi: int)
    requires
        0 <= lo <= hi <= usize::MAX,
    ensures
        forall|c: ChunkState| c.wf() ==> (#[trigger] dst_outcome(c, hs, ha, es, ea, lo, hi) matches Some(out) ==> lo
            <= out.2 <= hi),
{
    assert forall|c: ChunkState| c.wf() implies (#[trigger] dst_outcome(c, hs, ha, es, ea, lo, hi) matches Some(out)
        ==> lo <= out.2 <= hi) by {
        lemma_dst_outcome_count(c, hs, ha, es, ea, lo, hi);
    }
}

/// A chunk of storage.
pub struct Chunk {
    start: usize,
    len: usize,
    bump: usize,
    backing: Vec<u8>,
}

impl View for Chunk {
    type V = ChunkState;

    closed spec fn view(&self) -> ChunkState {
        ChunkState { start: self.start as int, len: self.len as int, bump: self.bump as int }
    }
}

proof fn lemma_mul_le_room(count: int, esize: int, room: int)
    requires
        esize > 0,
        room >= 0,
        0 <= count <= room / esize,
    ensures
        0 <= count * esize <= room,
{
    vstd::arithmetic::div_mod::lemma_fundamental_div_mod(room, esize);
    assert(count * esize <= (room / esize) * esize) by (nonlinear_arith)
        requires
            count <= room / esize,
            esize > 0,
    ;
    assert(count * esize >= 0) by (nonlinear_arith)
        requires
            count >= 0,
            esize > 0,
    ;
    assert((room / esize) * esize <= room) by {
        vstd::arithmetic::div_mod::lemma_fundamental_div_mod(room, esize);
        vstd::arithmetic::div_mod::lemma_mod_pos_bound(room, esize);
    }
}

/// The difference of two multiples of `a` is a multiple of `a`.
pub proof fn lemma_sub_multiples(x: int, y: int, a: int)
    requires
        a > 0,
        x % a == 0,
        y % a == 0,
    ensures
        (x - y) % a == 0,
{
    vstd::arithmetic::div_mod::lemma_fundamental_div_mod(x, a);
    vstd::arithmetic::div_mod::lemma_fundamental_div_mod(y, a);
    let k = x / a - y / a;
    assert(x - y == k * a) by (nonlinear_arith)
        requires
            x == a * (x / a),
            y == a * (y / a),
            k == x / a - y / a,
    ;
    vstd::arithmetic::div_mod::lemma_mod_multiples_basic(k, a);
}

/// A block placed by `try_alloc` is aligned, lies in the free space below
/// the old bump pointer, and does not reach into the space handed out
/// before: successive allocations never overlap.
pub proof fn lemma_placed_block(c: ChunkState, size: int, align: int)
    requires
        c.wf(),
        align > 0,
        size >= 0,
        fits(c, size, align),
    ensures
        placed_at(c, size, align) % align == 0,
        c.start <= placed_at(c, size, align),
        placed_at(c, size, align) + size <= c.bump,
        placed_at(c, size, align) + align_up(size, align) == align_down(c.bump, align),
        c.with_bump(placed_at(c, size, align)).wf(),
{
    lemma_align(c.bump, align);
    lemma_align(size, align);
    lemma_sub_multiples(align_down(c.bump, align), align_up(size, align), align);
}

/// A storage length no greater than one a chunk may have is one a chunk may
/// have too.
pub proof fn lemma_chunk_size_ok_smaller(x: int, y: int)
    requires
        0 <= x <= y,
        chunk_size_ok(y),
    ensures
        chunk_size_ok(x),
{
}

/// A block that fits in a chunk needs no more storage than the chunk has,
/// so a chunk made for it alone would be a valid chunk.
pub proof fn lemma_fits_size_ok(c: ChunkState, size: int, align: int)
    requires
        c.wf(),
        chunk_size_ok(c.len),
        align > 0,
        size >= 0,
        fits(c, size, align),
    ensures
        chunk_size_ok(align_up(size, align)),
{
    lemma_align(c.bump, align);
    lemma_align(size, align);
    lemma_chunk_size_ok_smaller(align_up(size, align), c.len);
}

/// Allocations never overlap: a block placed by `try_alloc` after another
/// one in the same chunk lies entirely below the earlier block.
pub proof fn lemma_successive_disjoint(c: ChunkState, s1: int, a1: int, s2: int, a2: int)
    requires
        c.wf(),
        a1 > 0,
        a2 > 0,
        s1 >= 0,
        s2 >= 0,
        fits(c, s1, a1),
        fits(c.with_bump(placed_at(c, s1, a1)), s2, a2),
    ensures
        c.start <= placed_at(c.with_bump(placed_at(c, s1, a1)), s2, a2),
        placed_at(c.with_bump(placed_at(c, s1, a1)), s2, a2) + s2 <= placed_at(c, s1, a1),
        placed_at(c, s1, a1) + s1 <= c.bump,
{
    lemma_placed_block(c, s1, a1);
    lemma_placed_block(c.with_bump(placed_at(c, s1, a1)), s2, a2);
}

/// Counting whole elements of `es` bytes in `room` bytes: the quotient is
/// the most that fit, and taking at most `hi` of them leaves either `hi` or
/// no room for one more.
proof fn lemma_whole_elements(room: int, es: int, lo: int, hi: int)
    requires
        room >= 0,
        es > 0,
        lo >= 0,
        hi >= 0,
    ensures
        (room / es) * es <= room < (room / es + 1) * es,
        lo <= room / es <==> lo * es <= room,
        0 <= min_int(room / es, hi) * es <= room,
        min_int(room / es, hi) == hi || (min_int(room / es, hi) + 1) * es > room,
{
    let q = room / es;
    vstd::arithmetic::div_mod::lemma_fundamental_div_mod(room, es);
    vstd::arithmetic::div_mod::lemma_div_pos_is_pos(room, es);
    assert(q * es <= room < (q + 1) * es) by (nonlinear_arith)
        requires
            room == es * q + room % es,
            0 <= room % es < es,
    ;
    assert(lo <= q ==> lo * es <= room) by (nonlinear_arith)
        requires
            q * es <= room,
            es > 0,
    ;
    assert(lo > q ==> lo * es > room) by (nonlinear_arith)
        requires
            room < (q + 1) * es,
            es > 0,
    ;
    let n = min_int(q, hi);
    assert(0 <= n * es <= room) by (nonlinear_arith)
        requires
            0 <= n <= q,
            q * es <= room,
            es > 0,
    ;
}

/// `try_alloc_remaining_slice_with_layout` takes every element that fits,
/// up to `hi`: with `room` bytes between the start of the storage and the
/// bump pointer rounded down to the elements' alignment, the answer is
/// `Some` exactly when `lo` elements fit and `lo <= hi`; then the slice ends
/// at that rounded bump pointer, is as long as its elements, fits in the
/// room, and either has `hi` elements or leaves no room for one more. When
/// the rounded bump pointer lies below the start, only an empty slice is
/// possible, and only when `lo` is zero.
pub proof fn lemma_slice_takes_all_that_fit(c: ChunkState, es: int, ea: int, lo: int, hi: int)
    requires
        c.wf(),
        es > 0,
        ea > 0,
        0 <= lo,
        0 <= hi,
    ensures
        ({
            let room = aligned_bump(c, ea) - c.start;
            let r = slice_outcome(c, es, ea, lo, hi);
            &&& room >= 0 ==> (r is Some <==> (lo <= hi && lo * es <= room))
            &&& room >= 0 ==> (r matches Some(out) ==> {
                &&& lo <= out.2 <= hi
                &&& out.1 == out.2 * es
                &&& out.2 * es <= room
                &&& out.0 + out.1 == aligned_bump(c, ea)
                &&& (out.2 == hi || (out.2 + 1) * es > room)
            })
            &&& room < 0 ==> (r is Some <==> lo == 0) && (r matches Some(out) ==> out.1 == 0 && out.2 == 0)
        }),
{
    lemma_align(c.bump, ea);
    let room = aligned_bump(c, ea) - c.start;
    if room >= 0 {
        lemma_whole_elements(room, es, lo, hi);
        let n = min_int(room / es, hi);
        assert(n >= lo <==> (lo <= hi && lo * es <= room));
        if n >= lo {
            lemma_mul_le_room(n, es, room);
        }
    }
}

/// `alloc_remaining_slice_with_layout` takes every element that fits, up
/// to `max_len`: with `room` bytes between the start of the storage and the
/// bump pointer rounded down to the elements' alignment, the slice ends at
/// that rounded bump pointer, is as long as its elements, fits in the room,
/// and either has `max_len` elements or leaves no room for one more. When
/// the rounded bump pointer lies below the start, nothing is taken.
pub proof fn lemma_remaining_takes_all_that_fit(c: ChunkState, es: int, ea: int, max_len: int)
    requires
        c.wf(),
        es > 0,
        ea > 0,
        0 <= max_len,
    ensures
        ({
            let room = aligned_bump(c, ea) - c.start;
            let out = remaining_outcome(c, es, ea, max_len);
            &&& room >= 0 ==> {
                &&& out.2 <= max_len
                &&& out.1 == out.2 * es
                &&& out.2 * es <= room
                &&& out.0 + out.1 == aligned_bump(c, ea)
                &&& (out.2 == max_len || (out.2 + 1) * es > room)
            }
            &&& room < 0 ==> out.1 == 0 && out.2 == 0
        }),
{
    lemma_align(c.bump, ea);
    let room = aligned_bump(c, ea) - c.start;
    if room >= 0 {
        lemma_whole_elements(room, es, 0, max_len);
        lemma_mul_le_room(min_int(room / es, max_len), es, room);
    }
}

/// `try_alloc_remaining_dst_with_layout` takes every element that fits
/// after the header, up to `hi`: with the header placed at the first address
/// of the storage aligned to the value, `room` bytes lie between the end of
/// the header, padded to the elements' alignment, and the bump pointer
/// rounded down to the value's alignment. The answer is `Some` exactly when
/// that room is not negative and `lo` elements fit in it; then the value
/// holds the padded header and its elements, ends at or below the rounded
/// bump pointer, starts at an aligned address, and has between `lo` and
/// `hi` elements, `hi` or as many as fit. Elements of no size are granted
/// `hi` times.
pub proof fn lemma_dst_takes_all_that_fit(c: ChunkState, hs: nat, ha: nat, es: nat, ea: nat, lo: int, hi: int)
    requires
        c.wf(),
        dst_geometry_ok(hs, ha, es, ea),
        0 <= lo <= hi <= usize::MAX,
    ensures
        ({
            let a = dst_align(ha, ea);
            let ho = dst_offset(hs, ea);
            let base = align_up(c.start, a);
            let aligned = aligned_bump(c, a);
            let room = aligned - base - ho;
            let r = dst_outcome(c, hs, ha, es, ea, lo, hi);
            &&& r is Some <==> (room >= 0 && lo * es <= room)
            &&& r matches Some(out) ==> {
                &&& lo <= out.2 <= hi
                &&& out.1 == ho + out.2 * es
                &&& out.2 * es <= room
                &&& c.start <= out.0 && out.0 + out.1 <= aligned
                &&& (out.0 as int) % a == 0
                &&& (out.2 == hi || (out.2 + 1) * es > room)
                &&& es == 0 ==> out.2 == hi
            }
        }),
{
    let a = dst_align(ha, ea);
    let ho = dst_offset(hs, ea);
    let base = align_up(c.start, a);
    let aligned = aligned_bump(c, a);
    let room = aligned - base - ho;
    crate::layout::lemma_pow2_positive(a);
    crate::layout::lemma_pow2_positive(ea as int);
    lemma_align(c.bump, a);
    lemma_align(c.start, a);
    lemma_align(hs as int, ea as int);
    if room >= 0 {
        if es > 0 {
            lemma_whole_elements(room, es as int, lo, hi);
        } else {
            assert(lo * es == 0 && (hi + 1) * es == 0) by (nonlinear_arith)
                requires
                    es == 0,
            ;
        }
        if dst_outcome(c, hs, ha, es, ea, lo, hi) is Some {
            lemma_dst_inside(c, hs, ha, es, ea, lo, hi);
            let out = dst_outcome(c, hs, ha, es, ea, lo, hi).unwrap();
            lemma_align(aligned - out.1, a);
        }
    }
}

/// A slice placed by `alloc_remaining_slice_with_layout` holds its count of
/// elements, at most the maximum asked for.
pub proof fn lemma_remaining_len(c: ChunkState, es: int, ea: int, max_len: int)
    requires
        c.wf(),
        es > 0,
        ea > 0,
        0 <= max_len <= usize::MAX,
    ensures
        remaining_outcome(c, es, ea, max_len).1 as int == remaining_outcome(c, es, ea, max_len).2 as int * es,
        remaining_outcome(c, es, ea, max_len).2 <= max_len,
{
    lemma_align(c.bump, ea);
    let aligned = aligned_bump(c, ea);
    if aligned >= c.start {
        let n = remaining_slice_count(c, es, ea, max_len);
        vstd::arithmetic::div_mod::lemma_div_pos_is_pos(aligned - c.start, es);
        lemma_mul_le_room(n, es, aligned - c.start);
    }
}

/// A slice placed by `try_alloc_remaining_slice_with_layout` lies in the
/// free space, its address aligned, and moving the bump pointer to it keeps
/// the chunk well formed.
pub proof fn lemma_slice_inside(c: ChunkState, es: int, ea: int, lo: int, hi: int)
    requires
        c.wf(),
        0 <= lo <= hi <= usize::MAX,
        es > 0,
        ea > 0,
        slice_outcome(c, es, ea, lo, hi) is Some,
        aligned_bump(c, ea) >= c.start,
    ensures
        ({
            let out = slice_outcome(c, es, ea, lo, hi).unwrap();
            &&& c.start <= out.0 as int
            &&& out.0 as int + out.1 as int <= c.bump
            &&& out.1 as int == out.2 as int * es
            &&& after_placing(c, Some(out)).wf()
        }),
{
    lemma_align(c.bump, ea);
    let aligned = aligned_bump(c, ea);
    let n = min_int(fit_count(aligned - c.start, es, hi), hi);
    vstd::arithmetic::div_mod::lemma_div_pos_is_pos(aligned - c.start, es);
    lemma_mul_le_room(n, es, aligned - c.start);
}

/// A header and elements placed by `try_alloc_remaining_dst_with_layout`
/// lie in the free space, start at an address aligned to both layouts, are
/// as long as the header's padded size plus the elements, and moving the bump
/// pointer to them keeps the chunk well formed.
pub proof fn lemma_dst_inside(c: ChunkState, hs: nat, ha: nat, es: nat, ea: nat, lo: int, hi: int)
    requires
        c.wf(),
        0 <= lo <= hi <= usize::MAX,
        dst_outcome(c, hs, ha, es, ea, lo, hi) is Some,
    ensures
        ({
            let out = dst_outcome(c, hs, ha, es, ea, lo, hi).unwrap();
            &&& c.start <= out.0 as int
            &&& out.0 as int + out.1 as int <= c.bump
            &&& out.1 as int == dst_offset(hs, ea) + out.2 as int * es
            &&& (out.0 as int) % dst_align(ha, ea) == 0
            &&& after_placing(c, Some(out)).wf()
        }),
{
    let a = dst_align(ha, ea);
    crate::layout::lemma_pow2_positive(a);
    crate::layout::lemma_pow2_positive(ea as int);
    lemma_align(c.bump, a);
    lemma_align(c.start, a);
    let aligned = aligned_bump(c, a);
    let ho = dst_offset(hs, ea);
    let base = align_up(c.start, a);
    lemma_align(hs as int, ea as int);
    let max_fit = if es == 0 { usize::MAX as int } else { (aligned - base - ho) / (es as int) };
    let n = min_int(hi, max_fit);
    if es > 0 {
        vstd::arithmetic::div_mod::lemma_div_pos_is_pos(aligned - base - ho, es as int);
        lemma_mul_le_room(n, es as int, aligned - base - ho);
    } else {
        assert(n * es == 0) by (nonlinear_arith)
            requires
                es == 0,
        ;
    }
    let total = ho + n * es;
    lemma_align(aligned - total, a);
    assert(base % a == 0);
    assert(base <= align_down(aligned - total, a));
}

/// The layout of the bookkeeping of a chunk.
pub fn chunk_header_layout() -> (r: Layout)
    ensures
        r.size_spec() == CHUNK_HEADER_SIZE,
        r.align_spec() == CHUNK_HEADER_ALIGN,
{
    proof {
        reveal_with_fuel(is_pow2, 5);
        assert(is_pow2(8));
        assert(valid_layout(24, 8));
    }
    match Layout::from_size_align(CHUNK_HEADER_SIZE, CHUNK_HEADER_ALIGN) {
        Ok(l) => l,
        Err(_) => {
            proof { assert(false); }
            Layout::unit()
        }
    }
}

/// The layout of one byte.
pub fn byte_layout() -> (r: Layout)
    ensures
        r.size_spec() == 1,
        r.align_spec() == 1,
{
    proof {
        reveal(is_pow2);
    }
    match Layout::from_size_align(1, 1) {
        Ok(l) => l,
        Err(_) => {
            proof { assert(false); }
            Layout::unit()
        }
    }
}

impl Chunk {
    pub open spec fn wf(&self) -> bool {
        self@.wf() && chunk_size_ok(self@.len)
    }

    /// The chunk with no storage that stands in for a missing chunk. It
    /// reserves no memory.
    pub fn sentinel() -> (r: Chunk)
        ensures
            r.wf(),
            r@ == fresh_chunk(0),
    {
        proof {
            reveal_with_fuel(is_pow2, 5);
            assert(valid_layout(0, 1));
            assert(align_up(24, 1) == 24);
            assert(valid_layout(24, 8));
        }
        Chunk { start: CHUNK_HEADER_SIZE, len: 0, bump: CHUNK_HEADER_SIZE, backing: Vec::new() }
    }

    /// Creates a chunk with `size` bytes of storage, reserving its memory.
    /// `InvalidLayout` when the chunk would be too big to describe,
    /// `OutOfMemory` when the memory cannot be reserved.
    pub fn create_chunk(size: usize) -> (r: Result<Chunk, AllocError>)
        ensures
            r matches Ok(c) ==> c.wf() && c@ == fresh_chunk(size as int) && chunk_size_ok(size as int),
            r == Err::<Chunk, AllocError>(AllocError::InvalidLayout) <==> !chunk_size_ok(size as int),
    {
        let header = chunk_header_layout();
        let bytes = match byte_layout().array_of(size) {
            Ok(l) => l,
            Err(_) => return Err(AllocError::InvalidLayout),
        };
        let (layout, offset) = match header.extend(bytes) {
            Ok(p) => p,
            Err(_) => return Err(AllocError::InvalidLayout),
        };
        let layout = layout.pad_to_align();
        let total = layout.size();
        let mut backing: Vec<u8> = Vec::new();
        match backing.try_reserve(total) {
            Ok(()) => {},
            Err(_) => return Err(AllocError::OutOfMemory),
        }
        proof {
            assert(align_up(24, 1) == 24);
            assert(offset == 24);
        }
        Ok(Chunk { start: offset, len: size, bump: offset + size, backing })
    }

    /// Storage length.
    pub fn storage_len(&self) -> (r: usize)
        ensures
            r == self@.len,
    {
        self.len
    }

    /// Bytes still free below the bump pointer.
    pub fn remaining(&self) -> (r: usize)
        requires
            self.wf(),
        ensures
            r == self@.remaining(),
    {
        self.bump - self.start
    }

    /// Bytes handed out above the bump pointer.
    pub fn used(&self) -> (r: usize)
        requires
            self.wf(),
        ensures
            r == self@.used(),
    {
        self.len - (self.bump - self.start)
    }

    /// Current bump pointer.
    pub fn bump_ptr(&self) -> (r: usize)
        ensures
            r == self@.bump,
    {
        self.bump
    }

    /// Bytes this chunk occupies, bookkeeping included.
    pub fn total_size(&self) -> (r: usize)
        requires
            self.wf(),
        ensures
            r == chunk_total_size(self@.len),
    {
        let header = chunk_header_layout();
        let bytes = match byte_layout().array_of(self.len) {
            Ok(l) => l,
            Err(_) => {
                proof { assert(false); }
                return 0;
            },
        };
        let (layout, offset) = match header.extend(bytes) {
            Ok(p) => p,
            Err(_) => {
                proof { assert(false); }
                return 0;
            },
        };
        proof {
            assert(align_up(24, 1) == 24);
        }
        layout.pad_to_align().size()
    }

    /// Frees all the storage: the bump pointer goes back to the end.
    pub fn clean(&mut self)
        requires
            old(self).wf(),
        ensures
            final(self).wf(),
            final(self)@ == old(self)@.cleaned(),
    {
        self.bump = self.start + self.len;
    }

    /// One past the end of the storage.
    pub fn end_addr(&self) -> (r: usize)
        requires
            self.wf(),
        ensures
            r == self@.end(),
    {
        self.start + self.len
    }

    /// Start of the storage.
    pub fn start_addr(&self) -> (r: usize)
        ensures
            r == self@.start,
    {
        self.start
    }

    /// Moves the bump pointer to another position inside this chunk.
    pub fn move_bump_to(&mut self, bump: usize)
        requires
            old(self).wf(),
            old(self)@.start <= bump <= old(self)@.end(),
        ensures
            final(self).wf(),
            final(self)@ == old(self)@.with_bump(bump as int),
    {
        self.bump = bump;
    }

    /// Whether a block of the given layout fits below the bump pointer.
    pub fn can_allocate(&self, layout: &Layout) -> (r: bool)
        requires
            self.wf(),
        ensures
            r == fits(self@, layout.size_spec() as int, layout.align_spec() as int),
    {
        let size = layout.size();
        let align = layout.align();
        let start = self.start;
        let current = self.bump;
        let aligned = align_down_exec(current, align);
        if aligned < start {
            return false;
        }
        let remaining = aligned - start;
        let aligned_size = match checked_align_up(size, align) {
            Some(v) => v,
            None => return false,
        };
        aligned_size <= remaining
    }

    /// Allocates a block of the given layout below the bump pointer; the
    /// block starts at the new bump pointer. `OutOfMemory`, and no change,
    /// when it does not fit.
    pub fn try_alloc(&mut self, layout: &Layout) -> (r: Result<usize, AllocError>)
        requires
            old(self).wf(),
        ensures
            final(self).wf(),
            fits(old(self)@, layout.size_spec() as int, layout.align_spec() as int) ==> {
                let a = placed_at(old(self)@, layout.size_spec() as int, layout.align_spec() as int);
                &&& r == Ok::<usize, AllocError>(a as usize)
                &&& final(self)@ == old(self)@.with_bump(a)
            },
            !fits(old(self)@, layout.size_spec() as int, layout.align_spec() as int) ==> {
                &&& r == Err::<usize, AllocError>(AllocError::OutOfMemory)
                &&& final(self)@ == old(self)@
            },
    {
        let align = layout.align();
        let size = layout.size();
        let start = self.start;
        let current = self.bump;
        let aligned = align_down_exec(current, align);
        proof {
            lemma_align(size as int, align as int);
        }
        let aligned_size = match checked_align_up(size, align) {
            Some(v) => v,
            None => {
                proof { assert(false); }
                return Err(AllocError::OutOfMemory);
            },
        };
        if aligned < start || aligned_size > aligned - start {
            return Err(AllocError::OutOfMemory);
        }
        let new_ptr = aligned - aligned_size;
        if new_ptr < start {
            return Err(AllocError::OutOfMemory);
        }
        self.bump = new_ptr;
        Ok(new_ptr)
    }

    /// Takes as many elements of `element_layout` as fit below the bump
    /// pointer, at most `maximum_len`; returns the address, the byte length
    /// and the element count of the block. When the aligned bump pointer is
    /// below the start, returns an empty block and changes nothing.
    pub fn alloc_remaining_slice_with_layout(&mut self, element_layout: &Layout, maximum_len: usize) -> (r: (usize, usize, usize))
        requires
            old(self).wf(),
        ensures
            final(self).wf(),
            r == remaining_outcome(old(self)@, element_layout.size_spec() as int, element_layout.align_spec() as int, maximum_len as int),
            r.0 != 0,
            ({
                let es = element_layout.size_spec() as int;
                let room = aligned_bump(old(self)@, element_layout.align_spec() as int) - old(self)@.start;
                es > 0 && room >= 0 ==> r.1 == r.2 * es && r.2 * es <= room && r.2 <= maximum_len && (r.2
                    == maximum_len || (r.2 + 1) * es > room)
            }),
            final(self)@ == remaining_after(old(self)@, element_layout.size_spec() as int, element_layout.align_spec() as int, maximum_len as int),
    {
        let start = self.start;
        let current = self.bump;
        let align = element_layout.align();
        proof {
            if element_layout.size_spec() > 0 {
                lemma_remaining_takes_all_that_fit(self@, element_layout.size_spec() as int, align as int, maximum_len as int);
            }
        }
        let aligned = align_down_exec(current, align);
        if aligned < start {
            return (DANGLING, 0, 0);
        }
        let remaining = aligned - start;
        let esize = element_layout.size();
        let max_fit = match remaining.checked_div(esize) {
            Some(v) => v,
            None => maximum_len,
        };
        let count = if max_fit <= maximum_len { max_fit } else { maximum_len };
        proof {
            if esize > 0 {
                lemma_mul_le_room(count as int, esize as int, remaining as int);
            }
        }
        let total = count * esize;
        let new_ptr = aligned - total;
        self.bump = new_ptr;
        (new_ptr, total, count)
    }

    /// Takes between `range_len.start` and `range_len.end` elements of
    /// `element_layout`, as many as fit; `None`, and no change, when fewer
    /// than `range_len.start` fit. The range is expected to be ordered.
    pub fn try_alloc_remaining_slice_with_layout(&mut self, element_layout: &Layout, range_len: Range<usize>) -> (r: Option<(usize, usize, usize)>)
        requires
            old(self).wf(),
        ensures
            final(self).wf(),
            r == slice_outcome(old(self)@, element_layout.size_spec() as int, element_layout.align_spec() as int, range_len.start as int, range_len.end as int),
            r matches Some(out) ==> out.0 != 0,
            ({
                let es = element_layout.size_spec() as int;
                let room = aligned_bump(old(self)@, element_layout.align_spec() as int) - old(self)@.start;
                es > 0 && room >= 0 ==> (r is Some <==> (range_len.start <= range_len.end && range_len.start * es
                    <= room)) && (r matches Some(out) ==> out.1 == out.2 * es && out.2 * es <= room && out.2
                    <= range_len.end && (out.2 == range_len.end || (out.2 + 1) * es > room))
            }),
            final(self)@ == after_placing(old(self)@, r),
    {
        let start = self.start;
        let current = self.bump;
        let align = element_layout.align();
        proof {
            if element_layout.size_spec() > 0 {
                lemma_slice_takes_all_that_fit(
                    self@,
                    element_layout.size_spec() as int,
                    align as int,
                    range_len.start as int,
                    range_len.end as int,
                );
            }
        }
        proof {
            if element_layout.size_spec() > 0 {
                lemma_slice_takes_all_that_fit(
                    self@,
                    element_layout.size_spec() as int,
                    align as int,
                    range_len.start as int,
                    range_len.end as int,
                );
            }
        }
        let aligned = align_down_exec(current, align);
        if aligned < start {
            return if range_len.start == 0 {
                Some((DANGLING, 0, 0))
            } else {
                None
            };
        }
        let remaining = aligned - start;
        let esize = element_layout.size();
        let max_fit = match remaining.checked_div(esize) {
            Some(v) => v,
            None => range_len.end,
        };
        let count = if max_fit <= range_len.end { max_fit } else { range_len.end };
        if count < range_len.start {
            return None;
        }
        proof {
            if esize > 0 {
                lemma_mul_le_room(count as int, esize as int, remaining as int);
            }
        }
        let total = count * esize;
        let new_ptr = aligned - total;
        self.bump = new_ptr;
        Some((new_ptr, total, count))
    }

    /// Places a header of `header_layout` followed by as many elements of
    /// `element_layout` as fit, between `elements_len.start` and
    /// `elements_len.end`; returns the address, the byte length (header size
    /// plus the elements) and the element count. `None`, and no change, when
    /// the layouts do not combine or fewer than `elements_len.start` elements
    /// fit after the header.
    pub fn try_alloc_remaining_dst_with_layout(
        &mut self,
        header_layout: &Layout,
        element_layout: &Layout,
        elements_len: Range<usize>,
    ) -> (r: Option<(usize, usize, usize)>)
        requires
            old(self).wf(),
        ensures
            final(self).wf(),
            r == dst_outcome(old(self)@, header_layout.size_spec(), header_layout.align_spec(), element_layout.size_spec(), element_layout.align_spec(), elements_len.start as int, elements_len.end as int),
            r matches Some(out) ==> out.0 != 0,
            ({
                let hs = header_layout.size_spec();
                let es = element_layout.size_spec();
                let ea = element_layout.align_spec();
                let a = dst_align(header_layout.align_spec(), ea);
                let room = aligned_bump(old(self)@, a) - align_up(old(self)@.start, a) - dst_offset(hs, ea);
                elements_len.start <= elements_len.end && dst_geometry_ok(hs, header_layout.align_spec(), es, ea)
                    ==> (r is Some <==> (room >= 0 && elements_len.start * es <= room)) && (r matches Some(out)
                    ==> out.1 == dst_offset(hs, ea) + out.2 * es && out.2 * es <= room && out.2 <= elements_len.end
                    && (out.2 == elements_len.end || (out.2 + 1) * es > room))
            }),
            final(self)@ == after_placing(old(self)@, r),
    {
        let start = self.start;
        let current = self.bump;
        proof {
            if elements_len.start <= elements_len.end && dst_geometry_ok(
                header_layout.size_spec(),
                header_layout.align_spec(),
                element_layout.size_spec(),
                element_layout.align_spec(),
            ) {
                lemma_dst_takes_all_that_fit(
                    self@,
                    header_layout.size_spec(),
                    header_layout.align_spec(),
                    element_layout.size_spec(),
                    element_layout.align_spec(),
                    elements_len.start as int,
                    elements_len.end as int,
                );
            }
        }
        let one = match element_layout.repeat(1) {
            Ok((l, _)) => l,
            Err(_) => return None,
        };
        let (combined, header_offset) = match header_layout.extend(one) {
            Ok(p) => p,
            Err(_) => return None,
        };
        let align = combined.pad_to_align().align();
        proof {
            crate::layout::lemma_pow2_positive(align as int);
            lemma_align(start as int, align as int);
            lemma_align(current as int, align as int);
        }
        let aligned = align_down_exec(current, align);
        let base = match checked_align_up(start, align) {
            Some(v) => v,
            None => return None,
        };
        let new_start = match base.checked_add(header_offset) {
            Some(v) => v,
            None => return None,
        };
        if aligned < new_start {
            return None;
        }
        let remaining = aligned - new_start;
        let esize = element_layout.size();
        let max_fit = match remaining.checked_div(esize) {
            Some(v) => v,
            None => usize::MAX,
        };
        if max_fit < elements_len.start {
            return None;
        }
        let count = if elements_len.end <= max_fit { elements_len.end } else { max_fit };
        proof {
            if esize > 0 {
                lemma_mul_le_room(count as int, esize as int, remaining as int);
            } else {
                assert(count * esize == 0) by (nonlinear_arith)
                    requires
                        esize == 0,
                ;
            }
        }
        let total = header_offset + count * esize;
        let new_ptr = align_down_exec(aligned - total, align);
        proof {
            lemma_align((aligned - total) as int, align as int);
            assert(base as int % align as int == 0);
            assert(base <= new_ptr);
        }
        self.bump = new_ptr;
        Some((new_ptr, total, count))
    }
}


/// The items of `v` in reverse order.
pub fn reverse_vec<T>(v: Vec<T>) -> (r: Vec<T>)
    ensures
        r@ == v@.reverse(),
{
    let ghost orig = v@;
    let mut v = v;
    let mut out: Vec<T> = Vec::new();
    while v.len() > 0
        invariant
            v@ == orig.subrange(0, v@.len() as int),
            out@.len() + v@.len() == orig.len(),
            forall|i: int| 0 <= i < out@.len() ==> out@[i] == orig[orig.len() - 1 - i],
        decreases v@.len(),
    {
        let x = v.pop().unwrap();
        out.push(x);
    }
    assert(out@ =~= orig.reverse());
    out
}

/// What filling a chunk from `items` yields, when the chunk's aligned bump
/// pointer is not below its start and `max_fit` elements would fit.
pub open spec fn fill_count(len: int, max_fit: int) -> int {
    min_int(len, max_fit)
}

/// What filling a chunk in state `c` from `items` yields: the chunk
/// becomes `after`, the slice `b` and the left-over items `rest`.
pub open spec fn fill_result<T>(
    c: ChunkState,
    items: Seq<T>,
    order: InsertingOrder,
    after: ChunkState,
    b: Box<Vec<T>>,
    rest: Option<Vec<T>>,
) -> bool {
    let size = vstd::layout::size_of::<T>() as int;
    let align = vstd::layout::align_of::<T>() as int;
    let aligned = aligned_bump(c, align);
    if aligned < c.start {
        &&& b.address() == align && b.content()@.len() == 0
        &&& (rest matches Some(r) && r@ == items)
        &&& after == c
    } else {
        let max_fit = (aligned - c.start) / size;
        let n = fill_count(items.len() as int, max_fit);
        &&& (items.len() < max_fit ==> rest is None)
        &&& (items.len() >= max_fit ==> (rest matches Some(r) && r@ == items.skip(n)))
        &&& (n == 0 ==> b.address() == align && b.content()@.len() == 0 && after == c)
        &&& (n > 0 ==> {
            &&& b.address() == aligned - n * size
            &&& after == c.with_bump(aligned - n * size)
            &&& b.content()@ == (if order == InsertingOrder::Original {
                items.take(n)
            } else {
                items.take(n).reverse()
            })
        })
    }
}

/// When filling yields an empty slice and gives items back, it gave back
/// all of them and left the chunk as it was.
pub proof fn lemma_fill_rest_whole<T>(
    c: ChunkState,
    items: Seq<T>,
    order: InsertingOrder,
    after: ChunkState,
    b: Box<Vec<T>>,
    rest: Option<Vec<T>>,
)
    requires
        fill_result(c, items, order, after, b, rest),
        b.content()@.len() == 0,
        rest is Some,
        vstd::layout::size_of::<T>() > 0,
    ensures
        rest->0@ == items,
        after == c,
{
    let size = vstd::layout::size_of::<T>() as int;
    let align = vstd::layout::align_of::<T>() as int;
    let aligned = aligned_bump(c, align);
    if aligned < c.start {
        return;
    }
    let max_fit = (aligned - c.start) / size;
    let n = fill_count(items.len() as int, max_fit);
    if n > 0 {
        if order == InsertingOrder::Original {
            assert(items.take(n).len() == n);
        } else {
            assert(items.take(n).reverse().len() == n);
        }
    }
    assert(n == 0);
    assert(items.skip(0) =~= items);
}

/// Whether filling a chunk in state `c` is accepted by a pool scan: when at
/// least one element fits.
pub open spec fn fill_accepts(c: ChunkState, size: int, align: int) -> bool {
    aligned_bump(c, align) >= c.start && (aligned_bump(c, align) - c.start) / size > 0
}

impl Chunk {
    /// Moves as many items as fit below the bump pointer into a slice, laid
    /// out in `inserting_order`. Returns the slice and, unless the items ran
    /// out before the space did, the items left over.
    ///
    /// When the aligned bump pointer is below the start, nothing is moved and
    /// the items are all handed back.
    pub fn alloc_remaining_slice_from_iter_with_order<T>(&mut self, items: Vec<T>, inserting_order: InsertingOrder)
        -> (r: (Box<Vec<T>>, Option<Vec<T>>))
        requires
            old(self).wf(),
            vstd::layout::size_of::<T>() > 0,
        ensures
            final(self).wf(),
            fill_result(old(self)@, items@, inserting_order, final(self)@, r.0, r.1),
    {
        let layout = Layout::new::<T>();
        let size = layout.size();
        let align = layout.align();
        let start = self.start;
        let current = self.bump;
        let aligned = align_down_exec(current, align);
        if aligned < start {
            return (Box::from_parts(align, Vec::new()), Some(items));
        }
        let max_fit = (aligned - start) / size;
        if max_fit == 0 {
            proof {
                assert(items@.skip(0) =~= items@);
            }
            return (Box::from_parts(align, Vec::new()), Some(items));
        }
        let ghost orig = items@;
        let mut rev = reverse_vec(items);
        let mut taken: Vec<T> = Vec::new();
        let mut to_completion = false;
        while taken.len() < max_fit
            invariant_except_break
                !to_completion,
            invariant
                taken@.len() <= max_fit,
                taken@ == orig.take(taken@.len() as int),
                rev@.len() + taken@.len() == orig.len(),
                forall|i: int| 0 <= i < rev@.len() ==> rev@[i] == orig[orig.len() - 1 - i],
            ensures
                taken@.len() <= max_fit,
                taken@ == orig.take(taken@.len() as int),
                rev@.len() + taken@.len() == orig.len(),
                forall|i: int| 0 <= i < rev@.len() ==> rev@[i] == orig[orig.len() - 1 - i],
                to_completion <==> orig.len() < max_fit,
                to_completion || taken@.len() == max_fit,
                to_completion ==> taken@.len() == orig.len(),
            decreases max_fit - taken@.len(),
        {
            match rev.pop() {
                Some(x) => {
                    let ghost w = taken@.len() as int;
                    taken.push(x);
                    assert(taken@ =~= orig.take(w + 1));
                },
                None => {
                    to_completion = true;
                    break;
                },
            }
        }
        let written = taken.len();
        proof {
            vstd::arithmetic::div_mod::lemma_fundamental_div_mod((aligned - start) as int, size as int);
            lemma_mul_le_room(written as int, size as int, (aligned - start) as int);
        }
        let remaining = if to_completion {
            None
        } else {
            let rest = reverse_vec(rev);
            proof {
                assert(rest@ =~= orig.skip(written as int));
            }
            Some(rest)
        };
        if written == 0 {
            return (Box::from_parts(align, Vec::new()), remaining);
        }
        let new_ptr = aligned - written * size;
        self.bump = new_ptr;
        let content = match inserting_order {
            InsertingOrder::Original => taken,
            _ => reverse_vec(taken),
        };
        (Box::from_parts(new_ptr, content), remaining)
    }
}

} // verus!
