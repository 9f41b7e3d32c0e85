//! A bump arena allocator whose chunks are recycled through a shared pool.
//!
//! A [SharedArena] hands out [LocalArena]s. Each local arena bumps allocations
//! downward inside its current chunk and, when the chunk is full, takes a
//! chunk from the shared pool or makes a new one. Resetting a local arena
//! gives all its chunks back to the pool, where other local arenas reuse them.
//!
//! Memory is described by addresses: every allocation is a range of addresses
//! inside one chunk, and its content is held by the returned [Box].
pub mod layout;
pub mod boxed;
pub mod chunk;
pub mod dst;
pub mod pool;
pub mod local_arena;
pub mod arena;
pub mod checkpoint;
pub mod rc;
pub mod unrolled_list;

pub use layout::Layout;
pub use boxed::{Box, Uninit};
pub use arena::Arena;
pub use local_arena::LocalArena;
pub use pool::SharedArena;
pub use checkpoint::LocalArenaCheckpoint;
pub use rc::StrongRc;
pub use unrolled_list::UnrolledList;

use vstd::prelude::*;

verus! {

/// Error produced when attempting to allocate.
#[derive(Clone, Copy, Debug, PartialEq, Eq, Structural)]
pub enum AllocError {
    /// Allocator ran out of memory.
    OutOfMemory,
    /// The layout is invalid: the requested object, or the object together
    /// with the bookkeeping of the backing storage, is too big.
    InvalidLayout,
}

impl AllocError {
    /// Human readable description of the error.
    pub fn message(&self) -> (r: &'static str)
        ensures
            *self == AllocError::OutOfMemory ==> r@ == "System run out of memory."@,
            *self == AllocError::InvalidLayout ==> r@
                == "The layout required to allocate was invalid. This can happen if a too big layout was requested."@,
    {
        match self {
            AllocError::OutOfMemory => "System run out of memory.",
            AllocError::InvalidLayout => "The layout required to allocate was invalid. This can happen if a too big layout was requested.",
        }
    }
}

/// Information about the memory an arena holds.
#[derive(Clone, Copy, Debug, PartialEq, Eq, Structural)]
pub struct AllocationInfo {
    /// Bytes handed out to the user across all chunks, alignment included.
    pub user_bytes: usize,
    /// Bytes of storage across all chunks, including the space left unused.
    pub storage_bytes: usize,
    /// Bytes of all chunks, including their bookkeeping.
    pub total_bytes: usize,
}

impl AllocationInfo {
    /// All counters at zero.
    pub fn zero() -> (r: AllocationInfo)
        ensures
            r.user_bytes == 0 && r.storage_bytes == 0 && r.total_bytes == 0,
    {
        AllocationInfo { user_bytes: 0, storage_bytes: 0, total_bytes: 0 }
    }
}

impl Default for AllocationInfo {
    fn default() -> (r: AllocationInfo)
        ensures
            r.user_bytes == 0 && r.storage_bytes == 0 && r.total_bytes == 0,
    {
        AllocationInfo::zero()
    }
}

/// Order in which the elements of a sequence are laid out in memory.
#[derive(Clone, Copy, Debug, PartialEq, Eq, Structural)]
pub enum InsertingOrder {
    /// The order in which the user produced them.
    Original,
    /// The inverse of the order in which the user produced them.
    Reverse,
    /// Any order; useful for uninitialized or zeroed memory.
    Unspecified,
}

impl Default for InsertingOrder {
    fn default() -> (r: InsertingOrder)
        ensures
            r == InsertingOrder::Original,
    {
        InsertingOrder::Original
    }
}

/// Whether [BuilderDST::write_element] was called, and how it ended.
#[derive(Clone, Copy, Debug, PartialEq, Eq, Structural)]
pub enum WriteElementState {
    /// [BuilderDST::write_element] was never called.
    NeverStarted,
    /// [BuilderDST::write_element] was called at least once.
    Started {
        /// Number of elements written.
        count: usize,
        /// Whether [BuilderDST::write_element] was called until it returned `false`.
        completed: bool,
    },
}

impl WriteElementState {
    /// Number of elements written: zero when never started.
    pub open spec fn count_spec(self) -> usize {
        match self {
            WriteElementState::NeverStarted => 0,
            WriteElementState::Started { count, .. } => count,
        }
    }

    /// Gets the number of elements written.
    pub fn count(self) -> (r: usize)
        ensures
            r == self.count_spec(),
    {
        match self {
            WriteElementState::NeverStarted => 0,
            WriteElementState::Started { count, .. } => count,
        }
    }
}

/// Why a dynamically sized allocation was cancelled.
#[derive(Clone, Copy, Debug, PartialEq, Eq, Structural)]
pub enum CancellationError {
    /// Cancelled before [BuilderDST::write_header] or
    /// [BuilderDST::write_element] was called: there was not enough space.
    CancelledBeforeWrite,
    /// Cancelled by [BuilderDST::write_header].
    CancelledByHeader(WriteElementState),
    /// Cancelled by [BuilderDST::finalizer].
    CancelledByFinalizer(WriteElementState),
}

/// What a builder has been asked and how it answered: the calls counted,
/// and the memory each was given and left, logged.
pub struct BuilderCalls {
    /// Calls of [BuilderDST::write_element] that returned `true`.
    pub written: nat,
    /// Calls of [BuilderDST::write_element] that returned `false`.
    pub stopped: nat,
    /// Calls of [BuilderDST::write_header], and how many returned `true`.
    pub headers: nat,
    pub headers_accepted: nat,
    /// Calls of [BuilderDST::finalizer], and how many returned `true`.
    pub finalized: nat,
    pub finalized_accepted: nat,
    /// Calls of [BuilderDST::drop_element] and of [BuilderDST::drop_header].
    pub elements_dropped: nat,
    pub headers_dropped: nat,
    /// The memory given to each accepted call of [BuilderDST::write_element]
    /// and what the call left in it, in the order of the calls.
    pub element_log: Seq<(Seq<u8>, Seq<u8>)>,
    /// The same for each call of [BuilderDST::write_header].
    pub header_log: Seq<(Seq<u8>, Seq<u8>)>,
    /// The same for each call of [BuilderDST::finalizer].
    pub finalizer_log: Seq<(Seq<u8>, Seq<u8>)>,
    /// The memory given to each call of [BuilderDST::drop_element], in order.
    pub element_drop_log: Seq<Seq<u8>>,
    /// The memory given to each call of [BuilderDST::drop_header], in order.
    pub header_drop_log: Seq<Seq<u8>>,
}

impl BuilderCalls {
    /// No call yet.
    pub open spec fn none() -> BuilderCalls {
        BuilderCalls {
            written: 0,
            stopped: 0,
            headers: 0,
            headers_accepted: 0,
            finalized: 0,
            finalized_accepted: 0,
            elements_dropped: 0,
            headers_dropped: 0,
            element_log: Seq::empty(),
            header_log: Seq::empty(),
            finalizer_log: Seq::empty(),
            element_drop_log: Seq::empty(),
            header_drop_log: Seq::empty(),
        }
    }

    /// The counts alone, without the memory logs.
    pub open spec fn counts(self) -> BuilderCalls {
        BuilderCalls {
            element_log: Seq::empty(),
            header_log: Seq::empty(),
            finalizer_log: Seq::empty(),
            element_drop_log: Seq::empty(),
            header_drop_log: Seq::empty(),
            ..self
        }
    }

    /// A call of [BuilderDST::drop_element] logged with its memory.
    pub open spec fn log_element_drop(self, given: Seq<u8>) -> BuilderCalls {
        BuilderCalls { element_drop_log: self.element_drop_log.push(given), ..self }
    }

    /// A call of [BuilderDST::drop_header] logged with its memory.
    pub open spec fn log_header_drop(self, given: Seq<u8>) -> BuilderCalls {
        BuilderCalls { header_drop_log: self.header_drop_log.push(given), ..self }
    }

    /// An accepted call of [BuilderDST::write_element] logged with the
    /// memory it was given and left; a refused one leaves the log as it is.
    pub open spec fn log_element(self, accepted: bool, given: Seq<u8>, left: Seq<u8>) -> BuilderCalls {
        if accepted {
            BuilderCalls { element_log: self.element_log.push((given, left)), ..self }
        } else {
            self
        }
    }

    /// A call of [BuilderDST::write_header] logged with its memory.
    pub open spec fn log_header(self, given: Seq<u8>, left: Seq<u8>) -> BuilderCalls {
        BuilderCalls { header_log: self.header_log.push((given, left)), ..self }
    }

    /// A call of [BuilderDST::finalizer] logged with its memory.
    pub open spec fn log_finalizer(self, given: Seq<u8>, left: Seq<u8>) -> BuilderCalls {
        BuilderCalls { finalizer_log: self.finalizer_log.push((given, left)), ..self }
    }

    /// One more call of [BuilderDST::write_element], answered `accepted`.
    pub open spec fn element(self, accepted: bool) -> BuilderCalls {
        if accepted {
            BuilderCalls { written: self.written + 1, ..self }
        } else {
            BuilderCalls { stopped: self.stopped + 1, ..self }
        }
    }

    /// The element calls that the state `st` reports: `count` accepted, and
    /// one refused when `completed`.
    pub open spec fn elements(self, st: WriteElementState) -> BuilderCalls {
        match st {
            WriteElementState::NeverStarted => self,
            WriteElementState::Started { count, completed } => BuilderCalls {
                written: self.written + count as nat,
                stopped: self.stopped + (if completed { 1nat } else { 0nat }),
                ..self
            },
        }
    }

    /// One more call of [BuilderDST::write_header], answered `accepted`.
    pub open spec fn header(self, accepted: bool) -> BuilderCalls {
        BuilderCalls {
            headers: self.headers + 1,
            headers_accepted: self.headers_accepted + (if accepted { 1nat } else { 0nat }),
            ..self
        }
    }

    /// One more call of [BuilderDST::finalizer], answered `accepted`.
    pub open spec fn finalize(self, accepted: bool) -> BuilderCalls {
        BuilderCalls {
            finalized: self.finalized + 1,
            finalized_accepted: self.finalized_accepted + (if accepted { 1nat } else { 0nat }),
            ..self
        }
    }

    /// `n` more calls of [BuilderDST::drop_element].
    pub open spec fn drop_elements(self, n: nat) -> BuilderCalls {
        BuilderCalls { elements_dropped: self.elements_dropped + n, ..self }
    }

    /// One more call of [BuilderDST::drop_header].
    pub open spec fn drop_header(self) -> BuilderCalls {
        BuilderCalls { headers_dropped: self.headers_dropped + 1, ..self }
    }
}

/// The fixed description of a builder: the layouts of its header and of
/// each element, the order of the elements, and the least and the most
/// elements it builds with.
pub struct BuilderShape {
    pub header: Layout,
    pub element: Layout,
    pub order: InsertingOrder,
    pub min: nat,
    pub max: nat,
}

/// Builds a dynamically sized value: a header followed by a run of elements.
///
/// The arena calls the element writer from the end of the free space
/// backward until it returns `false` or the space runs out, then writes the
/// header, then runs the finalizer on the whole memory. When the header
/// writer or the finalizer refuses, the written elements (and the header, if
/// written) are dropped in the order they were written.
///
/// A builder may keep a record of its calls in [BuilderDST::calls]: how
/// many of each, how each was answered, and the memory each was given and
/// left. One that does says so with [BuilderDST::counts_calls], keeps its
/// [BuilderDST::shape] fixed, and its methods then keep the record; the
/// contracts of the arenas state, over that record, how they drive such a
/// builder. Builders written outside Verus keep the defaults, which claim
/// nothing.
pub trait BuilderDST {
    /// Whether [BuilderDST::calls] counts this builder's calls.
    open spec fn counts_calls(&self) -> bool {
        false
    }

    /// The calls made to this builder so far, when it counts them.
    open spec fn calls(&self) -> BuilderCalls {
        BuilderCalls::none()
    }

    /// What stays fixed of a builder that counts its calls: its layouts and
    /// the bounds on its element count.
    open spec fn shape(&self) -> BuilderShape {
        vstd::pervasive::arbitrary()
    }

    /// Layout of the header part.
    fn header_layout(&self) -> (r: Layout)
        ensures
            self.counts_calls() ==> r == self.shape().header;

    /// Layout of each element of the tail part.
    fn element_layout(&self) -> (r: Layout)
        ensures
            self.counts_calls() ==> r == self.shape().element;

    /// The minimum number of elements the builder needs, and the maximum it
    /// plans to write, if known.
    fn elements_hint(&self) -> (usize, Option<usize>);

    /// Order in which the elements are laid out.
    fn inserting_order(&self) -> (r: InsertingOrder)
        ensures
            self.counts_calls() ==> r == self.shape().order;

    /// Writes the header; `false` cancels the allocation.
    fn write_header(&mut self, memory: &mut Vec<u8>) -> (r: bool)
        ensures
            final(self).counts_calls() == old(self).counts_calls(),
            old(self).counts_calls() ==> final(self).calls() == old(self).calls().header(r).log_header(
                old(memory)@,
                final(memory)@,
            ) && final(self).shape() == old(self).shape();

    /// Writes one element; `false` means there are no more elements.
    fn write_element(&mut self, memory: &mut Vec<u8>) -> (r: bool)
        ensures
            final(self).counts_calls() == old(self).counts_calls(),
            old(self).counts_calls() ==> final(self).calls() == old(self).calls().element(r).log_element(
                r,
                old(memory)@,
                final(memory)@,
            ) && final(self).shape() == old(self).shape();

    /// Runs on the whole memory of the new value; `false` cancels the allocation.
    fn finalizer(&mut self, memory: &mut Vec<u8>) -> (r: bool)
        ensures
            final(self).counts_calls() == old(self).counts_calls(),
            old(self).counts_calls() ==> final(self).calls() == old(self).calls().finalize(r).log_finalizer(
                old(memory)@,
                final(memory)@,
            ) && final(self).shape() == old(self).shape();

    /// Drops the header written before a cancellation.
    fn drop_header(&mut self, memory: &mut Vec<u8>)
        ensures
            final(self).counts_calls() == old(self).counts_calls(),
            old(self).counts_calls() ==> final(self).calls() == old(self).calls().drop_header().log_header_drop(
                old(memory)@,
            ) && final(self).shape() == old(self).shape();

    /// Drops one element written before a cancellation.
    fn drop_element(&mut self, memory: &mut Vec<u8>)
        ensures
            final(self).counts_calls() == old(self).counts_calls(),
            old(self).counts_calls() ==> final(self).calls() == old(self).calls().drop_elements(1).log_element_drop(
                old(memory)@,
            ) && final(self).shape() == old(self).shape();
}

/// Whether a builder run that returned `r` made the calls that take the
/// builder's count from `before` to `after`: elements as the state reports
/// (`count` accepted, one refused when `completed`), then on success one
/// accepted header and one accepted finalizer; on a refused header, one
/// drop per written element; on a refused finalizer, one drop per written
/// element and one of the header; before any write, no call at all.
pub open spec fn protocol_followed(
    before: BuilderCalls,
    after: BuilderCalls,
    r: Result<(crate::boxed::Box<Vec<u8>>, WriteElementState), CancellationError>,
) -> bool {
    let (b, a) = (before.counts(), after.counts());
    match r {
        Ok((_, st)) => a == b.elements(st).header(true).finalize(true),
        Err(CancellationError::CancelledBeforeWrite) => after == before,
        Err(CancellationError::CancelledByHeader(st)) => a == b.elements(st).header(false).drop_elements(
            st.count_spec() as nat,
        ),
        Err(CancellationError::CancelledByFinalizer(st)) => a == b.elements(st).header(true).finalize(
            false,
        ).drop_elements(st.count_spec() as nat).drop_header(),
    }
}

} // verus!
