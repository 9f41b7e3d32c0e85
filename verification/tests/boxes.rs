use arena_alloc::{Arena, Box, LocalArena, SharedArena};

fn new_arena() -> LocalArena {
    SharedArena::default().make_local()
}

#[test]
fn box_addresses_and_values() {
    let mut arena = new_arena();
    let mut b = arena.try_alloc(17u32).unwrap();
    let address = Box::as_ptr(&b);
    assert_ne!(address, 0);
    assert_eq!(address % 4, 0);
    assert_eq!(Box::as_mut_ptr(&mut b), address);
    b.set(18);
    assert_eq!(*b.get(), 18);
    assert_eq!(Box::as_ptr(&b), address);
    let slice = Box::into_boxed_slice(b);
    assert_eq!(Box::as_ptr(&slice), address);
    assert_eq!(slice.len(), 1);
    assert_eq!(Box::into_inner(slice), vec![18u32]);
}

#[test]
fn box_into_raw_keeps_address() {
    let mut arena = new_arena();
    let b = arena.try_alloc(String::from("kept")).unwrap();
    let address = Box::as_ptr(&b);
    assert_eq!(Box::into_raw(b), address);
    let c = arena.try_alloc(5u64).unwrap();
    let address = Box::as_ptr(&c);
    assert_eq!(Box::into_non_null(c), address);
}

#[test]
fn uninit_allocations() {
    let mut arena = new_arena();
    let one = arena.try_alloc_uninit::<u64>().unwrap();
    assert_eq!(one.uninit_len(), 1);
    assert_eq!(Box::as_ptr(&one) % std::mem::align_of::<u64>(), 0);
    let many = arena.try_alloc_slice::<u16>(9).unwrap();
    assert_eq!(many.uninit_len(), 9);
    assert_eq!(Box::as_ptr(&many) % 2, 0);
    assert!(Box::as_ptr(&many) + 18 <= Box::as_ptr(&one));
}

#[test]
fn try_alloc_with_closure() {
    let mut arena = new_arena();
    let base = 40;
    let b = arena.try_alloc_with(move || base + 2).unwrap();
    assert_eq!(*b.get(), 42);
    let f = arena.try_alloc_slice_fill_with(4, |i| i * i).unwrap();
    assert_eq!(f.get(), &vec![0usize, 1, 4, 9]);
}

#[test]
fn remaining_slice_from_iter_in_original_order() {
    let mut arena = new_arena();
    let (b, rest) = arena.alloc_remaining_slice_from_iter(vec![3u8, 1, 2]);
    assert_eq!(b.len(), 0);
    assert_eq!(rest, Some(vec![3u8, 1, 2]));
    arena.try_alloc(0u8).unwrap();
    let (b, rest) = arena.alloc_remaining_slice_from_iter(vec![3u8, 1, 2]);
    assert_eq!(b.get(), &vec![3u8, 1, 2]);
    assert!(rest.is_none());
}

#[test]
fn box_take_and_write_keep_the_allocation() {
    let mut arena = new_arena();
    let b = arena.try_alloc(41u64).unwrap();
    let address = Box::as_ptr(&b);
    let (value, room) = Box::take(b);
    assert_eq!(value, 41);
    assert_eq!(Box::as_ptr(&room), address);
    assert_eq!(room.uninit_len(), 1);
    let back = Box::write(room, value + 1);
    assert_eq!(Box::as_ptr(&back), address);
    assert_eq!(*back.get(), 42);
}

#[test]
fn box_into_array_checks_the_length() {
    let mut arena = new_arena();
    arena.try_alloc(1u8).unwrap();
    let (slice, rest) = arena.alloc_remaining_slice_from_iter(vec![1u16, 2, 3]);
    assert!(rest.is_none());
    let address = Box::as_ptr(&slice);
    let slice = match slice.into_array::<4>() {
        Ok(_) => panic!("a slice of three is no array of four"),
        Err(back) => back,
    };
    assert_eq!(Box::as_ptr(&slice), address);
    let array = slice.into_array::<3>().unwrap();
    assert_eq!(Box::as_ptr(&array), address);
    assert_eq!(Box::into_inner(array), vec![1u16, 2, 3]);
}

#[test]
fn fill_with_a_closure_that_keeps_state() {
    let mut arena = new_arena();
    let mut calls = 0usize;
    let filled = arena
        .try_alloc_slice_fill_with(4, |i| {
            calls += 1;
            i * 2
        })
        .unwrap();
    assert_eq!(calls, 4);
    assert_eq!(Box::into_inner(filled), vec![0usize, 2, 4, 6]);
}
