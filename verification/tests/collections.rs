use arena_alloc::unrolled_list::UnrolledList;
use arena_alloc::{AllocError, Arena, LocalArena, SharedArena, StrongRc};

fn new_arena() -> LocalArena {
    SharedArena::default().make_local()
}

#[test]
fn unrolled_list_add_then_get() {
    let mut arena = new_arena();
    let mut list: UnrolledList<u32> = UnrolledList::new();
    assert_eq!(list.len(), 0);
    assert!(list.get(0).is_none());
    for i in 0..100u32 {
        list.add(&mut arena, i * 3).unwrap();
        assert_eq!(list.get(i as usize), Some(&(i * 3)));
    }
    assert_eq!(list.len(), 100);
    for i in 0..100u32 {
        assert_eq!(*list.get(i as usize).unwrap(), i * 3);
    }
    assert!(list.get(100).is_none());
    assert!(list.get(usize::MAX).is_none());
}

#[test]
fn unrolled_list_iter_in_order() {
    let mut arena = new_arena();
    let mut list: UnrolledList<u64> = UnrolledList::new();
    for i in 0..37u64 {
        list.add(&mut arena, 1000 + i).unwrap();
    }
    let mut it = list.iter();
    let mut seen = Vec::new();
    while let Some(v) = it.next() {
        seen.push(*v);
    }
    let expected: Vec<u64> = (0..37u64).map(|i| 1000 + i).collect();
    assert_eq!(seen, expected);
    assert!(it.next().is_none());
}

#[test]
fn unrolled_list_get_mut_and_iter_mut() {
    let mut arena = new_arena();
    let mut list: UnrolledList<i32> = UnrolledList::new();
    for i in 0..20 {
        list.add(&mut arena, i).unwrap();
    }
    *list.get_mut(7).unwrap() = -7;
    assert!(list.get_mut(20).is_none());
    assert_eq!(list.get(7), Some(&-7));
    assert_eq!(list.get(6), Some(&6));
    assert_eq!(list.get(8), Some(&8));
    {
        let mut it = list.iter_mut();
        while let Some(v) = it.next() {
            *v = *v * 10;
        }
    }
    assert_eq!(list.get(0), Some(&0));
    assert_eq!(list.get(7), Some(&-70));
    assert_eq!(list.get(19), Some(&190));
    assert_eq!(list.len(), 20);
}

#[test]
fn unrolled_list_into_iter() {
    let mut arena = new_arena();
    let mut list: UnrolledList<String> = UnrolledList::new();
    for i in 0..11 {
        list.add(&mut arena, format!("item {}", i)).unwrap();
    }
    let mut it = list.into_iter();
    for i in 0..11 {
        assert_eq!(it.next(), Some(format!("item {}", i)));
    }
    assert_eq!(it.next(), None);
    assert_eq!(it.next(), None);
}

#[test]
fn unrolled_list_empty_into_iter() {
    let list: UnrolledList<u8> = UnrolledList::new();
    let mut it = list.into_iter();
    assert_eq!(it.next(), None);
}

#[test]
fn strong_rc_new_get_clone() {
    let mut arena = new_arena();
    let rc = StrongRc::try_new_in(41u64, &mut arena).unwrap();
    assert_eq!(*rc.get(), 41);
    assert_eq!(StrongRc::as_ptr(&rc) % std::mem::align_of::<u64>(), 0);
    assert!(StrongRc::is_unique(&rc));
    let other = rc.clone();
    assert_eq!(*other.get(), 41);
    assert_eq!(StrongRc::as_ptr(&other), StrongRc::as_ptr(&rc));
    assert!(!StrongRc::is_unique(&rc));
    drop(other);
    assert!(StrongRc::is_unique(&rc));
}

#[test]
fn strong_rc_get_mut() {
    let mut arena = new_arena();
    let mut rc = StrongRc::try_new_in(String::from("a"), &mut arena).unwrap();
    StrongRc::get_mut(&mut rc).unwrap().push('b');
    assert_eq!(rc.get(), "ab");
    let shared = rc.clone_ref();
    assert!(StrongRc::get_mut(&mut rc).is_none());
    drop(shared);
    assert!(StrongRc::get_mut(&mut rc).is_some());
}

#[test]
fn strong_rc_into_unique() {
    let mut arena = new_arena();
    let rc = StrongRc::try_new_in(vec![1, 2, 3], &mut arena).unwrap();
    let address = StrongRc::as_ptr(&rc);
    let rc = StrongRc::into_unique(rc, &mut arena).unwrap();
    assert_eq!(StrongRc::as_ptr(&rc), address);

    let shared = rc.clone();
    let unique = StrongRc::into_unique(rc, &mut arena).unwrap();
    assert_ne!(StrongRc::as_ptr(&unique), address);
    assert_eq!(unique.get(), &vec![1, 2, 3]);
    assert!(StrongRc::is_unique(&unique));
    assert!(StrongRc::is_unique(&shared));
}

#[test]
fn strong_rc_into_unique_with() {
    let mut arena = new_arena();
    let rc = StrongRc::try_new_in(5i32, &mut arena).unwrap();
    let kept = StrongRc::into_unique_with(rc, &mut arena, |v| v + 100).unwrap();
    assert_eq!(*kept.get(), 5);
    let shared = kept.clone();
    let made = StrongRc::into_unique_with(kept, &mut arena, |v| v + 100).unwrap();
    assert_eq!(*made.get(), 105);
    assert_eq!(*shared.get(), 5);
}

#[test]
fn strong_rc_zero_sized_value() {
    let mut arena = new_arena();
    let rc: Result<StrongRc<[u8; 0]>, AllocError> = StrongRc::try_new_in([], &mut arena);
    assert!(rc.is_ok());
    let info = arena.allocation_info();
    assert!(info.user_bytes <= info.storage_bytes);
}

#[test]
fn unrolled_list_of_zero_sized_items() {
    let mut arena = new_arena();
    let mut list: UnrolledList<()> = UnrolledList::new();
    for _ in 0..10 {
        list.add(&mut arena, ()).unwrap();
    }
    assert_eq!(list.len(), 10);
    assert_eq!(list.get(9), Some(&()));
    assert!(list.get(10).is_none());
}
