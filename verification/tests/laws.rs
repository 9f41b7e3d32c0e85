use arena_alloc::chunk::{Chunk, CHUNK_HEADER_SIZE};
use arena_alloc::layout::{align_down_exec, checked_align_up, is_power_of_two};
use arena_alloc::local_arena::checked_next_power_of_two;
use arena_alloc::pool::{min_chunk_size, ChunkPool, MINIMUM_ALLOCATED_SIZE};
use arena_alloc::{
    AllocError, AllocationInfo, Arena, CancellationError, InsertingOrder, Layout, LocalArena,
    LocalArenaCheckpoint, SharedArena, WriteElementState,
};

fn new_arena() -> LocalArena {
    SharedArena::default().make_local()
}

#[test]
fn layout_from_size_align() {
    let l = Layout::from_size_align(12, 4).unwrap();
    assert_eq!((l.size(), l.align()), (12, 4));
    assert!(Layout::from_size_align(12, 0).is_err());
    assert!(Layout::from_size_align(12, 6).is_err());
    assert!(Layout::from_size_align(isize::MAX as usize, 1).is_ok());
    assert!(Layout::from_size_align(isize::MAX as usize, 2).is_err());
    assert!(Layout::from_size_align(isize::MAX as usize - 1, 2).is_ok());
}

#[test]
fn layout_pad_extend_repeat_array() {
    let l = Layout::from_size_align(5, 4).unwrap();
    let p = l.pad_to_align();
    assert_eq!((p.size(), p.align()), (8, 4));

    let header = Layout::from_size_align(3, 1).unwrap();
    let body = Layout::from_size_align(16, 8).unwrap();
    let (whole, offset) = header.extend(body).unwrap();
    assert_eq!(offset, 8);
    assert_eq!((whole.size(), whole.align()), (24, 8));

    let (rep, stride) = l.repeat(3).unwrap();
    assert_eq!(stride, 8);
    assert_eq!((rep.size(), rep.align()), (24, 4));

    let arr = l.array_of(3).unwrap();
    assert_eq!((arr.size(), arr.align()), (15, 4));
    assert!(l.array_of(usize::MAX).is_err());

    let unit = Layout::unit();
    assert_eq!((unit.size(), unit.align()), (0, 1));
    let word = Layout::new::<u64>();
    assert_eq!((word.size(), word.align()), (8, std::mem::align_of::<u64>()));
}

#[test]
fn alignment_helpers() {
    assert!(is_power_of_two(1));
    assert!(is_power_of_two(64));
    assert!(!is_power_of_two(0));
    assert!(!is_power_of_two(96));
    assert_eq!(checked_align_up(13, 8), Some(16));
    assert_eq!(checked_align_up(16, 8), Some(16));
    assert_eq!(checked_align_up(usize::MAX, 8), None);
    assert_eq!(align_down_exec(13, 8), 8);
    assert_eq!(align_down_exec(16, 8), 16);
}

#[test]
fn next_power_of_two() {
    assert_eq!(checked_next_power_of_two(0), Some(1));
    assert_eq!(checked_next_power_of_two(1), Some(1));
    assert_eq!(checked_next_power_of_two(5), Some(8));
    assert_eq!(checked_next_power_of_two(1024), Some(1024));
    assert_eq!(checked_next_power_of_two(usize::MAX / 2 + 1), Some(usize::MAX / 2 + 1));
    assert_eq!(checked_next_power_of_two(usize::MAX / 2 + 2), None);
}

#[test]
fn chunk_minimum_size() {
    let small = Layout::from_size_align(10, 8).unwrap();
    assert_eq!(min_chunk_size(&small), 16);
    let exact = Layout::from_size_align(5000, 8).unwrap();
    assert_eq!(min_chunk_size(&exact), 5000);
    assert!(MINIMUM_ALLOCATED_SIZE >= min_chunk_size(&small));
}

#[test]
fn chunk_allocations_are_aligned_and_never_overlap() {
    let mut c = Chunk::create_chunk(100).unwrap();
    assert_eq!(c.start_addr(), CHUNK_HEADER_SIZE);
    assert_eq!(c.end_addr(), CHUNK_HEADER_SIZE + 100);
    assert_eq!(c.remaining(), 100);
    let four = Layout::from_size_align(4, 4).unwrap();
    let eight = Layout::from_size_align(8, 8).unwrap();
    let a = c.try_alloc(&four).unwrap();
    assert_eq!(a, 120);
    let b = c.try_alloc(&eight).unwrap();
    assert_eq!(b, 112);
    assert!(b + 8 <= a);
    assert_eq!(b % 8, 0);
    assert_eq!(c.used(), 12);
    assert_eq!(c.bump_ptr(), 112);
    let too_big = Layout::from_size_align(200, 1).unwrap();
    assert!(!c.can_allocate(&too_big));
    assert_eq!(c.try_alloc(&too_big), Err(AllocError::OutOfMemory));
    assert_eq!(c.bump_ptr(), 112);
    c.clean();
    assert_eq!(c.remaining(), 100);
}

#[test]
fn chunk_invalid_size() {
    assert!(matches!(Chunk::create_chunk(usize::MAX), Err(AllocError::InvalidLayout)));
    assert!(matches!(Chunk::create_chunk(isize::MAX as usize), Err(AllocError::InvalidLayout)));
}

#[test]
fn allocation_info_is_ordered() {
    let mut arena = new_arena();
    let info = arena.allocation_info();
    assert_eq!((info.user_bytes, info.storage_bytes), (0, 0));
    assert_eq!(info.total_bytes, CHUNK_HEADER_SIZE);
    arena.try_alloc(7u8).unwrap();
    arena.try_alloc(9u64).unwrap();
    let info = arena.allocation_info();
    assert!(info.user_bytes >= 9);
    assert!(info.user_bytes <= info.storage_bytes);
    assert!(info.storage_bytes < info.total_bytes);
    arena.reset();
    let info = arena.allocation_info();
    assert_eq!(info, AllocationInfo { user_bytes: 0, storage_bytes: 0, total_bytes: CHUNK_HEADER_SIZE });
    assert_eq!(AllocationInfo::default(), AllocationInfo::zero());
}

#[test]
fn rollback_undoes_allocations() {
    let mut arena = new_arena();
    arena.try_alloc(1u32).unwrap();
    let before = arena.allocation_info();
    let remaining = arena.remaining_chunk_capacity();
    {
        let mut checkpoint = LocalArenaCheckpoint::make_checkpoint_owner(&mut arena);
        checkpoint.try_alloc(2u32).unwrap();
        checkpoint.try_alloc_slice_fill_copy(10, &7u64).unwrap();
        assert!(checkpoint.allocation_info().user_bytes > before.user_bytes);
        checkpoint.rollback();
        assert_eq!(checkpoint.allocation_info(), before);
    }
    assert_eq!(arena.allocation_info(), before);
    assert_eq!(arena.remaining_chunk_capacity(), remaining);
}

#[test]
fn dropping_a_checkpoint_keeps_allocations() {
    let mut arena = new_arena();
    {
        let mut checkpoint = LocalArenaCheckpoint::make_checkpoint_owner(&mut arena);
        checkpoint.try_alloc(2u32).unwrap();
    }
    assert!(arena.allocation_info().user_bytes >= 4);
}

#[test]
fn nested_checkpoints() {
    let mut arena = new_arena();
    let mut outer = LocalArenaCheckpoint::make_checkpoint_owner(&mut arena);
    outer.try_alloc(1u8).unwrap();
    let after_first = outer.allocation_info();
    {
        let mut inner = outer.make_checkpoint();
        inner.try_alloc(2u64).unwrap();
        inner.rollback();
        assert_eq!(inner.allocation_info(), after_first);
        inner.try_alloc(3u16).unwrap();
    }
    assert!(outer.allocation_info().user_bytes > after_first.user_bytes);
    outer.rollback();
    let info = outer.allocation_info();
    assert_eq!((info.user_bytes, info.storage_bytes), (0, 0));
    assert_eq!(outer.remaining_chunk_capacity(), 0);
}

#[test]
fn rollback_drops_chunks_taken_since() {
    let mut arena = new_arena();
    let mut checkpoint = LocalArenaCheckpoint::make_checkpoint_owner(&mut arena);
    let values: Vec<u64> = (0..5000).collect();
    checkpoint.try_alloc_slice_fill_iter(values).unwrap();
    assert!(checkpoint.allocation_info().storage_bytes >= 5000 * 8);
    checkpoint.rollback();
    let info = checkpoint.allocation_info();
    assert_eq!((info.user_bytes, info.storage_bytes), (0, 0));
    assert_eq!(checkpoint.remaining_chunk_capacity(), 0);
    assert!(checkpoint.get_shared().pooled_chunks() > 0);
}

#[test]
fn error_values() {
    assert_eq!(AllocError::OutOfMemory.message(), "System run out of memory.");
    assert!(AllocError::InvalidLayout.message().starts_with("The layout required"));
    assert_eq!(InsertingOrder::default(), InsertingOrder::Original);
    assert_eq!(WriteElementState::NeverStarted.count(), 0);
    assert_eq!(WriteElementState::Started { count: 4, completed: true }.count(), 4);
    let e = CancellationError::CancelledByHeader(WriteElementState::Started { count: 2, completed: false });
    assert_ne!(e, CancellationError::CancelledBeforeWrite);
}

#[test]
fn slice_allocations_with_invalid_layout() {
    let mut arena = new_arena();
    let b = arena.try_alloc_slice_fill_default::<u32>(6).unwrap();
    assert_eq!(b.get(), &vec![0u32; 6]);
    assert_eq!(arena.try_alloc_slice_fill_default::<u64>(usize::MAX / 4).unwrap_err(), AllocError::InvalidLayout);
    assert_eq!(arena.try_alloc_slice::<u64>(usize::MAX / 4).unwrap_err(), AllocError::InvalidLayout);
    assert_eq!(arena.try_alloc_slice_fill_copy(usize::MAX / 2, &1u16).unwrap_err(), AllocError::InvalidLayout);
}

#[test]
fn given_back_chunks_are_reused() {
    let mut c = Chunk::create_chunk(256).unwrap();
    c.try_alloc(&Layout::from_size_align(200, 8).unwrap()).unwrap();
    assert!(c.remaining() < 64);
    let mut pool = ChunkPool::new();
    pool.store_chunks(vec![c]);
    assert_eq!(pool.len(), 1);
    let got = pool.extract_chunk(&Layout::from_size_align(250, 1).unwrap()).unwrap();
    assert_eq!(got.remaining(), 256);
    assert_eq!(pool.len(), 0);
    assert!(pool.extract_chunk(&Layout::from_size_align(1, 1).unwrap()).is_none());
}

#[test]
fn dst_value_is_aligned_and_padded() {
    let mut c = Chunk::create_chunk(64).unwrap();
    let byte = Layout::from_size_align(1, 1).unwrap();
    c.try_alloc(&byte).unwrap();
    let header = Layout::from_size_align(1, 1).unwrap();
    let element = Layout::from_size_align(2, 2).unwrap();
    let (address, len, n) = c.try_alloc_remaining_dst_with_layout(&header, &element, 1..1).unwrap();
    assert_eq!(n, 1);
    assert_eq!(len, 4);
    assert_eq!(address % 2, 0);
    assert!(address + len <= CHUNK_HEADER_SIZE + 63);
    assert_eq!(c.bump_ptr(), address);
}

#[test]
fn items_handed_back_when_no_aligned_byte_is_free() {
    let mut c = Chunk::create_chunk(4).unwrap();
    let (b, rest) = c.alloc_remaining_slice_from_iter_with_order(vec![1u128, 2], InsertingOrder::Original);
    assert_eq!(b.len(), 0);
    assert_eq!(rest, Some(vec![1u128, 2]));
    assert_eq!(c.remaining(), 4);
}
