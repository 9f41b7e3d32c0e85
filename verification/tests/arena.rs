use arena_alloc::chunk::Chunk;
use arena_alloc::dst::{finish, plan_dst, DSTInfo};
use arena_alloc::{
    AllocError, Arena, Box, BuilderDST, CancellationError, InsertingOrder, Layout, LocalArena,
    SharedArena, WriteElementState,
};

fn layout_of<T>() -> Layout {
    Layout::new::<T>()
}

fn assert_aligned<T>(b: &Box<T>, align: usize) {
    assert_eq!(Box::as_ptr(b) % align, 0, "Invalid alignment.");
}

struct TestBuilder {
    header: Layout,
    element: Layout,
    count: usize,
    len: usize,
    inserting_order: InsertingOrder,
    elements_hint: (usize, Option<usize>),
    header_w: bool,
    finalize: bool,
}

impl BuilderDST for TestBuilder {
    fn header_layout(&self) -> Layout {
        self.header
    }

    fn element_layout(&self) -> Layout {
        self.element
    }

    fn elements_hint(&self) -> (usize, Option<usize>) {
        self.elements_hint
    }

    fn inserting_order(&self) -> InsertingOrder {
        self.inserting_order
    }

    fn write_header(&mut self, memory: &mut Vec<u8>) -> bool {
        if memory.len() > 0 {
            memory[0] = 128;
        }
        self.header_w
    }

    fn write_element(&mut self, memory: &mut Vec<u8>) -> bool {
        if self.count == self.len {
            self.count = 0;
            false
        } else {
            if memory.len() > 0 {
                memory[0] = self.count as u8;
            }
            self.count += 1;
            true
        }
    }

    fn finalizer(&mut self, _: &mut Vec<u8>) -> bool {
        self.finalize
    }

    fn drop_header(&mut self, memory: &mut Vec<u8>) {
        if memory.len() > 0 {
            assert_eq!(memory[0], 128);
        }
    }

    fn drop_element(&mut self, memory: &mut Vec<u8>) {
        if memory.len() > 0 {
            assert_eq!(memory[0], self.count as u8);
            self.count += 1;
        }
    }
}

fn builder(header: Layout, element: Layout, len: usize, order: InsertingOrder, hint: (usize, Option<usize>), header_w: bool, finalize: bool) -> TestBuilder {
    TestBuilder { header, element, count: 0, len, inserting_order: order, elements_hint: hint, header_w, finalize }
}

fn new_arena() -> LocalArena {
    let shared = SharedArena::default();
    shared.make_local()
}

#[test]
fn shared() {
    let shared = SharedArena::default();
    let arena = shared.make_local();
    let _ = arena.get_shared();
}

#[test]
fn try_alloc() {
    let mut arena = new_arena();
    let b = arena.try_alloc(151u8).unwrap();
    assert_eq!(*b.get(), 151u8);
    let b = arena.try_alloc(314u16).unwrap();
    assert_eq!(*b.get(), 314u16);
    assert_aligned(&b, 2);
    let b = arena.try_alloc(1541564u32).unwrap();
    assert_eq!(*b.get(), 1541564u32);
    assert_aligned(&b, 4);
    let b = arena.try_alloc(71154u64).unwrap();
    assert_eq!(*b.get(), 71154u64);
    assert_aligned(&b, std::mem::align_of::<u64>());
    let b = arena.try_alloc(15641.0215f32).unwrap();
    assert_eq!(*b.get(), 15641.0215f32);
    let b = arena.try_alloc(97984.6789851f64).unwrap();
    assert_eq!(*b.get(), 97984.6789851f64);
    let b = arena.try_alloc([7, 9, 1, 3, 4, 7, 8, 6]).unwrap();
    assert_eq!(*b.get(), [7, 9, 1, 3, 4, 7, 8, 6]);
}

#[test]
fn try_alloc_from_clone() {
    let mut arena = new_arena();
    let b = arena.try_alloc_from_clone(&151u8).unwrap();
    assert_eq!(*b.get(), 151u8);
    let b = arena.try_alloc_from_clone(&71154u64).unwrap();
    assert_eq!(*b.get(), 71154u64);
    assert_aligned(&b, std::mem::align_of::<u64>());
}

#[test]
fn try_alloc_slice_copy_clone_str() {
    let mut arena = new_arena();
    let b = arena.try_alloc_slice_copy(&[7, 8, 3, 4, 6]).unwrap();
    assert_eq!(b.get().as_slice(), &[7, 8, 3, 4, 6]);
    let b = arena.try_alloc_slice_clone(&[3, 9, 7, 1, 6, 4, 515]).unwrap();
    assert_eq!(b.get().as_slice(), &[3, 9, 7, 1, 6, 4, 515]);
    let b = arena.try_alloc_str("safsdf").unwrap();
    assert_eq!(b.get().as_str(), "safsdf");
}

#[test]
fn try_alloc_slice_fill_copy_clone_default_iter() {
    let mut arena = new_arena();
    let b = arena.try_alloc_slice_fill_copy(6, &5i32).unwrap();
    assert_eq!(b.get().as_slice(), &[5, 5, 5, 5, 5, 5]);
    let b = arena.try_alloc_slice_fill_clone(6, &5i32).unwrap();
    assert_eq!(b.get().as_slice(), &[5, 5, 5, 5, 5, 5]);
    let b = arena.try_alloc_slice_fill_with(6, |_| 0i32).unwrap();
    assert_eq!(b.get().as_slice(), &[0, 0, 0, 0, 0, 0]);
    let b = arena.try_alloc_slice_fill_iter((5..8).collect::<Vec<i32>>()).unwrap();
    assert_eq!(b.get().as_slice(), &[5, 6, 7]);
}

#[test]
fn try_alloc_uninit() {
    let mut arena = new_arena();
    let b = arena.try_alloc_slice::<i32>(5).unwrap();
    assert_aligned(&b, 4);
    assert_eq!(b.get().len, 5);
    let b = arena.try_alloc_uninit::<i32>().unwrap();
    assert_aligned(&b, 4);
    let b = arena.try_alloc_layout(layout_of::<i32>()).unwrap();
    assert_aligned(&b, 4);
    assert_eq!(b.get().len, 4);
}

#[test]
fn try_alloc_remaining_dst_with_builder() {
    let mut arena = new_arena();
    let unit = layout_of::<()>();
    let u16l = layout_of::<u16>();
    let u32l = layout_of::<u32>();

    arena.reset();
    let (allocation, state) = arena.try_alloc_remaining_dst_with_builder(&mut builder(unit, unit, 50, InsertingOrder::Unspecified, (0, None), true, true)).unwrap();
    assert_eq!(state, WriteElementState::Started { count: 50, completed: true });
    assert_eq!(allocation.len(), 0);
    let (allocation, state) = arena.try_alloc_remaining_dst_with_builder(&mut builder(unit, u16l, 50, InsertingOrder::Unspecified, (0, None), true, true)).unwrap();
    assert_eq!(state, WriteElementState::NeverStarted);
    assert_eq!(allocation.len(), 0);
    let result = arena.try_alloc_remaining_dst_with_builder(&mut builder(u16l, u16l, 50, InsertingOrder::Unspecified, (0, None), true, true));
    assert_eq!(result.unwrap_err(), CancellationError::CancelledBeforeWrite);
    let result = arena.try_alloc_remaining_dst_with_builder(&mut builder(unit, u16l, 50, InsertingOrder::Unspecified, (usize::MAX, None), true, true));
    assert_eq!(result.unwrap_err(), CancellationError::CancelledBeforeWrite);

    arena.reset();
    assert_eq!(*arena.try_alloc(1u8).unwrap().get(), 1u8);
    let (allocation, state) = arena.try_alloc_remaining_dst_with_builder(&mut builder(unit, unit, 50, InsertingOrder::Unspecified, (0, None), true, true)).unwrap();
    assert_eq!(state, WriteElementState::Started { count: 50, completed: true });
    assert_eq!(allocation.len(), 0);

    arena.reset();
    arena.try_alloc(1u8).unwrap();
    let result = arena.try_alloc_remaining_dst_with_builder(&mut builder(u32l, u16l, 50, InsertingOrder::Unspecified, (usize::MAX, None), true, true));
    assert_eq!(result.unwrap_err(), CancellationError::CancelledBeforeWrite);

    arena.reset();
    arena.try_alloc(1u8).unwrap();
    let result = arena.try_alloc_remaining_dst_with_builder(&mut builder(u32l, u16l, 50, InsertingOrder::Unspecified, (0, None), false, true));
    assert_eq!(result.unwrap_err(), CancellationError::CancelledByHeader(WriteElementState::Started { count: 50, completed: true }));

    for order in [InsertingOrder::Unspecified, InsertingOrder::Original, InsertingOrder::Reverse] {
        arena.reset();
        arena.try_alloc(1u8).unwrap();
        let result = arena.try_alloc_remaining_dst_with_builder(&mut builder(u32l, u16l, 50, order, (0, None), true, false));
        assert_eq!(result.unwrap_err(), CancellationError::CancelledByFinalizer(WriteElementState::Started { count: 50, completed: true }));
    }

    arena.reset();
    arena.try_alloc(1u8).unwrap();
    let (allocation, state) = arena.try_alloc_remaining_dst_with_builder(&mut builder(unit, u16l, 50, InsertingOrder::Unspecified, (0, None), true, true)).unwrap();
    assert_eq!(state, WriteElementState::Started { count: 50, completed: true });
    assert_eq!(allocation.len(), 100);

    for order in [InsertingOrder::Unspecified, InsertingOrder::Original, InsertingOrder::Reverse] {
        arena.reset();
        arena.try_alloc(1u8).unwrap();
        let (allocation, state) = arena.try_alloc_remaining_dst_with_builder(&mut builder(u32l, u16l, 50, order, (0, None), true, true)).unwrap();
        assert_eq!(state, WriteElementState::Started { count: 50, completed: true });
        assert_eq!(allocation.len(), 104);
        assert_eq!(allocation.get()[0], 128);
    }

    arena.reset();
    let result = arena.try_alloc_remaining_dst_with_builder(&mut builder(u32l, u16l, 50, InsertingOrder::Unspecified, (0, None), true, false));
    assert_eq!(result.unwrap_err(), CancellationError::CancelledByFinalizer(WriteElementState::Started { count: 50, completed: true }));
    let (_, state) = arena.try_alloc_remaining_dst_with_builder(&mut builder(u32l, u16l, 50000, InsertingOrder::Original, (0, None), true, true)).unwrap();
    assert!(matches!(state, WriteElementState::Started { count: _, completed: false }));
    arena.try_alloc(1u8).unwrap();

    arena.reset();
    let (_, state) = arena.try_alloc_remaining_dst_with_builder(&mut builder(u32l, u16l, 50000, InsertingOrder::Original, (0, None), true, true)).unwrap();
    assert!(matches!(state, WriteElementState::Started { count: _, completed: false }));
    let (_, state) = arena.try_alloc_remaining_dst_with_builder(&mut builder(u32l, u16l, 50000, InsertingOrder::Original, (0, None), true, true)).unwrap();
    assert!(matches!(state, WriteElementState::Started { count: _, completed: false }));
}

#[test]
fn element_order_in_memory() {
    let mut arena = new_arena();
    let unit = layout_of::<()>();
    let u8l = layout_of::<u8>();
    arena.try_alloc(1u8).unwrap();
    let (original, _) = arena.try_alloc_remaining_dst_with_builder(&mut builder(unit, u8l, 3, InsertingOrder::Original, (0, None), true, true)).unwrap();
    assert_eq!(original.get().as_slice(), &[0, 1, 2]);
    let (reverse, _) = arena.try_alloc_remaining_dst_with_builder(&mut builder(unit, u8l, 3, InsertingOrder::Reverse, (0, None), true, true)).unwrap();
    assert_eq!(reverse.get().as_slice(), &[2, 1, 0]);
}

#[test]
fn try_alloc_remaining_dst_with_layout() {
    let mut arena = new_arena();
    let unit = layout_of::<()>();
    let u8l = layout_of::<u8>();
    let u16l = layout_of::<u16>();

    arena.reset();
    let (b, n) = arena.try_alloc_remaining_dst_with_layout(unit, unit, 50..50).unwrap();
    assert_eq!((b.get().len, n), (0, 50));
    let (b, n) = arena.try_alloc_remaining_dst_with_layout(unit, unit, 0..50).unwrap();
    assert_eq!((b.get().len, n), (0, 50));
    let (b, n) = arena.try_alloc_remaining_dst_with_layout(unit, u16l, 0..50).unwrap();
    assert_eq!((b.get().len, n), (0, 0));
    let (b, n) = arena.try_alloc_remaining_dst_with_layout(unit, u16l, 0..0).unwrap();
    assert_eq!((b.get().len, n), (0, 0));

    arena.reset();
    arena.try_alloc(1u8).unwrap();
    let (b, n) = arena.try_alloc_remaining_dst_with_layout(unit, u16l, 0..25).unwrap();
    assert_eq!((b.get().len, n), (50, 25));

    arena.reset();
    arena.try_alloc(1u8).unwrap();
    let (b, n) = arena.try_alloc_remaining_dst_with_layout(u16l, unit, 50..50).unwrap();
    assert_eq!((b.get().len, n), (2, 50));

    arena.reset();
    arena.try_alloc(1u8).unwrap();
    let (b, n) = arena.try_alloc_remaining_dst_with_layout(u16l, u8l, 50..50).unwrap();
    assert_eq!((b.get().len, n), (52, 50));

    arena.reset();
    arena.try_alloc(1u8).unwrap();
    assert!(arena.try_alloc_remaining_dst_with_layout(u16l, u8l, 50000..50000).is_none());
    assert!(arena.try_alloc_remaining_dst_with_layout(u16l, u8l, 0..50000).is_some());
    let (b, n) = arena.try_alloc_remaining_dst_with_layout(unit, u8l, 0..50000).unwrap();
    assert_eq!((b.get().len, n), (0, 0));
    assert!(arena.try_alloc_remaining_dst_with_layout(unit, u8l, 1..50000).is_none());

    arena.reset();
    assert!(arena.try_alloc_remaining_dst_with_layout(u16l, u8l, 50000..50000).is_none());
    let (b, n) = arena.try_alloc_remaining_dst_with_layout(unit, u8l, 0..50000).unwrap();
    assert_eq!((b.get().len, n), (0, 0));
    assert!(arena.try_alloc_remaining_dst_with_layout(unit, u8l, 1..50000).is_some());
}

#[test]
fn try_alloc_remaining_slice_with_layout() {
    let mut arena = new_arena();
    let unit = layout_of::<()>();
    let u16l = layout_of::<u16>();

    arena.reset();
    let (b, n) = arena.try_alloc_remaining_slice_with_layout(unit, 50..50).unwrap();
    assert_eq!((b.get().len, n), (0, 50));
    let (b, n) = arena.try_alloc_remaining_slice_with_layout(unit, 0..50).unwrap();
    assert_eq!((b.get().len, n), (0, 50));
    let (b, n) = arena.try_alloc_remaining_slice_with_layout(u16l, 0..0).unwrap();
    assert_eq!((b.get().len, n), (0, 0));

    arena.reset();
    arena.try_alloc(1u8).unwrap();
    let (b, n) = arena.try_alloc_remaining_slice_with_layout(u16l, 0..50).unwrap();
    assert_eq!((b.get().len, n), (100, 50));

    arena.reset();
    arena.try_alloc(1u8).unwrap();
    assert!(arena.try_alloc_remaining_slice_with_layout(u16l, 50000..50000).is_none());
    assert!(arena.try_alloc_remaining_slice_with_layout(u16l, 0..50000).is_some());
    let (b, n) = arena.try_alloc_remaining_slice_with_layout(u16l, 0..50000).unwrap();
    assert_eq!((b.get().len, n), (0, 0));
    assert!(arena.try_alloc_remaining_slice_with_layout(u16l, 1..50000).is_none());

    arena.reset();
    assert!(arena.try_alloc_remaining_slice_with_layout(u16l, 50000..50000).is_none());
    let (b, n) = arena.try_alloc_remaining_slice_with_layout(u16l, 0..50000).unwrap();
    assert_eq!((b.get().len, n), (0, 0));
    let (b, _) = arena.try_alloc_remaining_slice_with_layout(u16l, 1..50000).unwrap();
    assert_aligned(&b, 2);
}

#[test]
fn alloc_remaining_slice_with_layout() {
    let mut arena = new_arena();
    let unit = layout_of::<()>();
    let u16l = layout_of::<u16>();

    arena.reset();
    let (b, n) = arena.alloc_remaining_slice_with_layout(unit, 50);
    assert_eq!((b.get().len, n), (0, 50));
    let (b, n) = arena.alloc_remaining_slice_with_layout(u16l, 0);
    assert_eq!((b.get().len, n), (0, 0));

    arena.reset();
    arena.try_alloc(1u8).unwrap();
    let (b, n) = arena.alloc_remaining_slice_with_layout(u16l, 50);
    assert_eq!((b.get().len, n), (100, 50));

    arena.reset();
    arena.try_alloc(1u8).unwrap();
    let (b, _) = arena.alloc_remaining_slice_with_layout(u16l, 50000);
    assert_aligned(&b, 2);
    let (b, n) = arena.alloc_remaining_slice_with_layout(u16l, 50000);
    assert_eq!((b.get().len, n), (0, 0));
}

#[test]
fn alloc_remaining_slice_from_iter_with_order() {
    let mut arena = new_arena();

    arena.reset();
    let (slice, remaining) = arena.alloc_remaining_slice_from_iter_with_order((5..50u16).collect(), InsertingOrder::Original);
    assert!(remaining.is_some());
    assert_eq!(slice.len(), 0);
    let (slice, remaining) = arena.alloc_remaining_slice_from_iter_with_order(vec![(); 50], InsertingOrder::Unspecified);
    assert!(remaining.is_none());
    assert_eq!(slice.len(), 50);

    arena.reset();
    arena.try_alloc(1u8).unwrap();
    let (slice, remaining) = arena.alloc_remaining_slice_from_iter_with_order((5..50u16).collect(), InsertingOrder::Original);
    assert!(remaining.is_none());
    assert_eq!(slice.get().as_slice(), (5..50u16).collect::<Vec<_>>().as_slice());
    let (_, remaining) = arena.alloc_remaining_slice_from_iter_with_order((0..100000i32).collect(), InsertingOrder::Original);
    assert!(remaining.is_some());

    arena.reset();
    arena.try_alloc(1u8).unwrap();
    let (slice, remaining) = arena.alloc_remaining_slice_from_iter_with_order((5..50u16).rev().collect(), InsertingOrder::Reverse);
    assert!(remaining.is_none());
    assert_eq!(slice.get().as_slice(), (5..50u16).collect::<Vec<_>>().as_slice());
}

#[test]
fn try_alloc_remaining_slice() {
    let mut arena = new_arena();

    arena.reset();
    assert_eq!(arena.try_alloc_remaining_slice::<()>(50..50).unwrap().get().len, 50);
    assert_eq!(arena.try_alloc_remaining_slice::<()>(0..50).unwrap().get().len, 50);
    assert_eq!(arena.try_alloc_remaining_slice::<u16>(0..0).unwrap().get().len, 0);
    assert_eq!(arena.try_alloc_remaining_slice::<u16>(0..50).unwrap().get().len, 0);

    arena.reset();
    arena.try_alloc(1u8).unwrap();
    assert_eq!(arena.try_alloc_remaining_slice::<u16>(0..50).unwrap().get().len, 50);

    arena.reset();
    arena.try_alloc(1u8).unwrap();
    assert!(arena.try_alloc_remaining_slice::<u16>(50000..50000).is_none());
    assert!(arena.try_alloc_remaining_slice::<u16>(0..50000).is_some());
    assert_eq!(arena.try_alloc_remaining_slice::<u16>(0..50000).unwrap().get().len, 0);
    assert!(arena.try_alloc_remaining_slice::<u16>(1..50000).is_none());

    arena.reset();
    assert!(arena.try_alloc_remaining_slice::<u16>(50000..50000).is_none());
    assert_eq!(arena.try_alloc_remaining_slice::<u16>(0..50000).unwrap().get().len, 0);
    assert!(arena.try_alloc_remaining_slice::<u16>(1..50000).is_some());
}

#[test]
fn alloc_slice_from_remaining() {
    let mut arena = new_arena();

    arena.reset();
    assert_eq!(arena.alloc_slice_from_remaining::<()>(50).get().len, 50);
    assert_eq!(arena.alloc_slice_from_remaining::<u16>(0).get().len, 0);
    assert_eq!(arena.alloc_slice_from_remaining::<u16>(50).get().len, 0);

    arena.reset();
    arena.try_alloc(1u8).unwrap();
    assert_eq!(arena.alloc_slice_from_remaining::<u16>(100).get().len, 100);

    arena.reset();
    arena.try_alloc(1u8).unwrap();
    let b = arena.alloc_slice_from_remaining::<u16>(50000);
    assert_aligned(&b, 2);
    assert_eq!(arena.alloc_slice_from_remaining::<u16>(50000).get().len, 0);

    arena.reset();
    assert_eq!(arena.alloc_slice_from_remaining::<u16>(50000).get().len, 0);
}

#[test]
fn zst() {
    let mut arena = new_arena();
    assert_eq!(*arena.try_alloc(()).unwrap().get(), ());
    assert_eq!(arena.try_alloc_slice_clone(&[(), (), (), (), ()]).unwrap().len(), 5);
    assert_eq!(arena.try_alloc_slice_copy(&[(), (), (), (), ()]).unwrap().len(), 5);
    assert_eq!(arena.try_alloc_slice_fill_clone(5, &()).unwrap().len(), 5);
    assert_eq!(arena.try_alloc_slice_fill_copy(5, &()).unwrap().len(), 5);
}

#[test]
fn large_alloc_reuse_and_info() {
    let mut arena = new_arena();
    arena.reset();
    let info = arena.allocation_info();
    assert_eq!((info.user_bytes, info.storage_bytes), (0, 0));
    assert_eq!(arena.remaining_chunk_capacity(), 0);

    let values: Vec<i32> = (5..880).collect();
    let b = arena.try_alloc_slice_fill_iter(values.clone()).unwrap();
    assert_eq!(b.get(), &values);
    let info = arena.allocation_info();
    assert!(info.user_bytes >= 875 * 4);
    assert!(info.user_bytes <= info.storage_bytes && info.storage_bytes < info.total_bytes);

    let small: Vec<i16> = (5..880).collect();
    arena.try_alloc_slice_fill_iter(small).unwrap();
    arena.try_alloc_slice_fill_iter(values.clone()).unwrap();
    let info = arena.allocation_info();
    assert!(info.user_bytes <= info.storage_bytes && info.storage_bytes < info.total_bytes);

    arena.reset();
    assert!(arena.get_shared().pooled_chunks() > 0);
    assert_eq!(arena.remaining_chunk_capacity(), 0);
    arena.try_alloc_slice_fill_iter(values.clone()).unwrap();
    let big: Vec<i32> = (5..50000).collect();
    let b = arena.try_alloc_slice_fill_iter(big.clone()).unwrap();
    assert_eq!(b.get(), &big);
}

#[test]
fn out_of_place_errors() {
    let layout = Layout::from_size_align(8, 3);
    assert!(layout.is_err());
    let mut arena = new_arena();
    let huge = Layout::from_size_align(isize::MAX as usize - 7, 8).unwrap();
    assert_eq!(arena.try_alloc_layout(huge).unwrap_err(), AllocError::InvalidLayout);
}

#[test]
fn finish_counts_written_elements() {
    let mut c = Chunk::create_chunk(8).unwrap();
    let mut b = builder(layout_of::<()>(), layout_of::<u16>(), 10, InsertingOrder::Unspecified, (0, None), true, true);
    let info = DSTInfo::new(&b).unwrap();
    let plan = plan_dst(&c, &info).unwrap();
    let (m, st) = finish(&mut c, plan, &info, &mut b).unwrap();
    assert_eq!(st, WriteElementState::Started { count: 4, completed: false });
    assert_eq!(m.len(), 8);
    assert_eq!(c.bump_ptr(), Box::as_ptr(&m));
}

#[test]
fn finish_aligns_the_header() {
    let mut c = Chunk::create_chunk(64).unwrap();
    c.try_alloc(&layout_of::<u8>()).unwrap();
    let mut b = builder(layout_of::<u32>(), layout_of::<u16>(), 3, InsertingOrder::Original, (0, None), true, true);
    let info = DSTInfo::new(&b).unwrap();
    let plan = plan_dst(&c, &info).unwrap();
    let (m, st) = finish(&mut c, plan, &info, &mut b).unwrap();
    assert_eq!(st, WriteElementState::Started { count: 3, completed: true });
    assert_eq!(Box::as_ptr(&m) % 4, 0);
    assert_eq!(m.len(), 4 + 3 * 2);
    assert_eq!(&m.get()[4..], &[0, 0, 1, 0, 2, 0]);
}

#[test]
fn builder_untouched_when_layouts_do_not_combine() {
    let mut arena = new_arena();
    let huge = Layout::from_size_align(isize::MAX as usize - 7, 8).unwrap();
    let mut b = builder(huge, layout_of::<u64>(), 3, InsertingOrder::Original, (1, None), true, true);
    let r = arena.try_alloc_remaining_dst_with_builder(&mut b);
    assert_eq!(r.unwrap_err(), CancellationError::CancelledBeforeWrite);
    assert_eq!(b.count, 0);
}

#[test]
fn allocations_hand_out_at_least_their_size_and_never_overlap() {
    let mut arena = new_arena();
    arena.try_alloc(1u8).unwrap();
    let before = arena.allocation_info().user_bytes;
    let a = arena.try_alloc_layout(Layout::from_size_align(24, 8).unwrap()).unwrap();
    let after = arena.allocation_info().user_bytes;
    assert!(after >= before + 24);
    let b = arena.try_alloc_layout(Layout::from_size_align(10, 2).unwrap()).unwrap();
    assert!(Box::as_ptr(&b) + 10 <= Box::as_ptr(&a));
    assert!(arena.allocation_info().user_bytes >= after + 10);
}
