use arena_alloc::BuilderDST;
use arena_alloc::arena::{filled_from, span_in_range, span_or_empty, values_or_empty, values_or_none, SpanBuilder};
use arena_alloc::dst::{keeps_write_order, lay_out};
use arena_alloc::chunk::DANGLING;
use arena_alloc::{Box, CancellationError, InsertingOrder, WriteElementState};

fn built(addr: usize, bytes: usize, count: usize, completed: bool) -> Result<(Box<Vec<u8>>, WriteElementState), CancellationError> {
    Ok((Box::from_parts(addr, vec![0u8; bytes]), WriteElementState::Started { count, completed }))
}

#[test]
fn span_in_range_keeps_counts_in_range() {
    let (b, n) = span_in_range(built(64, 12, 3, false), 2, 5).unwrap();
    assert_eq!((Box::as_ptr(&b), b.uninit_len(), n), (64, 12, 3));
    assert!(span_in_range(built(64, 12, 3, false), 4, 5).is_none());
    assert!(span_in_range(built(64, 12, 3, false), 0, 2).is_none());
    assert!(span_in_range(Err(CancellationError::CancelledBeforeWrite), 0, 2).is_none());
}

#[test]
fn span_or_empty_on_cancel() {
    let (b, n) = span_or_empty(built(96, 8, 2, true));
    assert_eq!((Box::as_ptr(&b), b.uninit_len(), n), (96, 8, 2));
    let (b, n) = span_or_empty(Err(CancellationError::CancelledByFinalizer(WriteElementState::NeverStarted)));
    assert_eq!((Box::as_ptr(&b), b.uninit_len(), n), (DANGLING, 0, 0));
}

#[test]
fn values_from_written_count() {
    let b = values_or_none(built(128, 40, 10, false)).unwrap();
    assert_eq!((Box::as_ptr(&b), b.uninit_len()), (128, 10));
    assert!(values_or_none(Err(CancellationError::CancelledBeforeWrite)).is_none());
    let b = values_or_empty(built(128, 40, 10, false), 4);
    assert_eq!((Box::as_ptr(&b), b.uninit_len()), (128, 10));
    let b = values_or_empty(Err(CancellationError::CancelledBeforeWrite), 4);
    assert_eq!((Box::as_ptr(&b), b.uninit_len()), (4, 0));
}

#[test]
fn filled_from_orders_items() {
    let (b, rest) = filled_from(built(200, 3, 3, false), vec![1, 2, 3, 4, 5], InsertingOrder::Original, 4);
    assert_eq!(b.get(), &vec![1, 2, 3]);
    assert_eq!(rest, Some(vec![4, 5]));
    let (b, rest) = filled_from(built(200, 3, 3, true), vec![1, 2, 3], InsertingOrder::Reverse, 4);
    assert_eq!(b.get(), &vec![3, 2, 1]);
    assert_eq!(rest, None);
    let (b, rest) = filled_from(built(200, 3, 9, true), vec![1, 2, 3], InsertingOrder::Original, 4);
    assert_eq!(b.get(), &vec![1, 2, 3]);
    assert_eq!(rest, None);
    let (b, rest) = filled_from(Err(CancellationError::CancelledBeforeWrite), vec![1, 2, 3], InsertingOrder::Original, 4);
    assert_eq!((Box::as_ptr(&b), b.len()), (4, 0));
    assert_eq!(rest, Some(vec![1, 2, 3]));
}

#[test]
fn layout_keeps_or_reverses_write_order() {
    let header = vec![9u8, 8];
    let elements = vec![vec![1u8, 1], vec![2u8, 2], vec![3u8]];
    let kept = lay_out(&header, 2, 4, &elements, 2, true);
    assert_eq!(kept, vec![9, 8, 0, 0, 1, 1, 2, 2, 3, 0]);
    let reversed = lay_out(&header, 2, 4, &elements, 2, false);
    assert_eq!(reversed, vec![9, 8, 0, 0, 3, 0, 2, 2, 1, 1]);
    assert!(keeps_write_order(InsertingOrder::Original));
    assert!(!keeps_write_order(InsertingOrder::Reverse));
    assert!(!keeps_write_order(InsertingOrder::Unspecified));
}

#[test]
fn span_builders_carry_their_arguments() {
    let h = arena_alloc::Layout::from_size_align(3, 1).unwrap();
    let e = arena_alloc::Layout::from_size_align(2, 2).unwrap();
    let d = SpanBuilder::for_dst(h, e, 2, 7);
    assert_eq!((d.header_layout(), d.element_layout(), d.elements_hint()), (h, e, (2, Some(7))));
    let s = SpanBuilder::for_slice(e, 1, 4);
    assert_eq!((s.header_layout().size(), s.element_layout(), s.elements_hint()), (0, e, (1, Some(4))));
    let r = SpanBuilder::for_remaining(e, 9);
    assert_eq!((r.header_layout().size(), r.elements_hint()), (0, (0, Some(9))));
}

#[test]
fn span_builders_count_elements_between_their_bounds() {
    let e = arena_alloc::Layout::from_size_align(2, 2).unwrap();
    let mut b = SpanBuilder::for_slice(e, 2, 3);
    let mut memory: Vec<u8> = Vec::new();
    assert!(b.write_header(&mut memory));
    assert!(b.write_element(&mut memory));
    assert!(!b.finalizer(&mut memory));
    assert!(b.write_element(&mut memory));
    assert!(b.write_element(&mut memory));
    assert!(!b.write_element(&mut memory));
    assert!(b.finalizer(&mut memory));
    let mut any = SpanBuilder::for_remaining(e, 0);
    assert!(!any.write_element(&mut memory));
    assert!(any.finalizer(&mut memory));
}
