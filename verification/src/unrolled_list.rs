//! An unrolled linked list: a list whose elements are held in a chain of
//! nodes allocated from an arena, each node an array of elements.
use vstd::prelude::*;
use crate::layout::{Layout, valid_layout_int, extend_ok};
use crate::arena::{Arena, ordered_range};
use crate::boxed::Box;
use crate::chunk::reverse_vec;
use crate::AllocError;

verus! {

/// The bookkeeping that precedes the elements of a node.
pub struct NodeHeader {
    pub capacity: usize,
    pub prev: Option<usize>,
    pub next: Option<usize>,
}

/// A node: the address of its allocation, how many elements it holds at
/// most, and the elements it holds.
struct Node<T> {
    addr: usize,
    capacity: usize,
    items: Vec<T>,
}

/// Elements of a sequence of nodes, in order.
spec fn flat<T>(nodes: Seq<Node<T>>) -> Seq<T>
    decreases nodes.len(),
{
    if nodes.len() == 0 {
        Seq::empty()
    } else {
        flat(nodes.drop_last()) + nodes.last().items@
    }
}

/// The elements of the first nodes come first.
proof fn lemma_flat_prefix<T>(nodes: Seq<Node<T>>, i: int)
    requires
        0 <= i <= nodes.len(),
    ensures
        flat(nodes.take(i)).len() <= flat(nodes).len(),
        forall|k: int| 0 <= k < flat(nodes.take(i)).len() ==> #[trigger] flat(nodes.take(i))[k] == flat(nodes)[k],
    decreases nodes.len() - i,
{
    if i < nodes.len() {
        lemma_flat_prefix(nodes, i + 1);
        lemma_flat_step(nodes, i);
        assert forall|k: int| 0 <= k < flat(nodes.take(i)).len() implies #[trigger] flat(nodes.take(i))[k]
            == flat(nodes)[k] by {
            assert(flat(nodes.take(i + 1))[k] == flat(nodes.take(i))[k]);
        }
    } else {
        assert(nodes.take(i) =~= nodes);
    }
}

/// The elements of the node at `i` follow those of the nodes before it.
proof fn lemma_flat_step<T>(nodes: Seq<Node<T>>, i: int)
    requires
        0 <= i < nodes.len(),
    ensures
        flat(nodes.take(i + 1)) == flat(nodes.take(i)) + nodes[i].items@,
{
    let t = nodes.take(i + 1);
    assert(t.drop_last() =~= nodes.take(i));
    assert(t.last() == nodes[i]);
}

/// Writing one element of one node writes the element at the matching
/// position of the whole sequence.
proof fn lemma_flat_update<T>(nodes: Seq<Node<T>>, changed: Seq<Node<T>>, i: int, j: int, v: T)
    requires
        0 <= i < nodes.len(),
        changed.len() == nodes.len(),
        forall|k: int| 0 <= k < nodes.len() && k != i ==> #[trigger] changed[k] == nodes[k],
        0 <= j < nodes[i].items@.len(),
        changed[i].items@ == nodes[i].items@.update(j, v),
    ensures
        flat(changed) == flat(nodes).update(flat(nodes.take(i)).len() + j, v),
        flat(nodes.take(i)).len() + j < flat(nodes).len(),
    decreases nodes.len(),
{
    let last = nodes.len() - 1;
    assert(nodes.take(last) =~= nodes.drop_last());
    if i == last {
        assert(changed.drop_last() =~= nodes.drop_last());
        assert(flat(changed) =~= flat(nodes).update(flat(nodes.take(i)).len() + j, v));
    } else {
        assert(changed.last() == nodes.last());
        assert(changed.drop_last()[i] == changed[i]);
        assert forall|k: int| 0 <= k < nodes.drop_last().len() && k != i implies #[trigger] changed.drop_last()[k]
            == nodes.drop_last()[k] by {
            assert(changed.drop_last()[k] == changed[k]);
        }
        lemma_flat_update(nodes.drop_last(), changed.drop_last(), i, j, v);
        assert(nodes.drop_last().take(i) =~= nodes.take(i));
        assert(flat(changed) =~= flat(nodes).update(flat(nodes.take(i)).len() + j, v));
    }
}

/// [lemma_flat_update] for every changed sequence of nodes.
proof fn lemma_flat_update_any<T>(nodes: Seq<Node<T>>, i: int, j: int)
    requires
        0 <= i < nodes.len(),
        0 <= j < nodes[i].items@.len(),
    ensures
        forall|changed: Seq<Node<T>>|
            changed.len() == nodes.len() && (forall|k: int| 0 <= k < nodes.len() && k != i ==> changed[k] == nodes[k])
                && changed[i].items@ == nodes[i].items@.update(j, changed[i].items@[j])
                ==> #[trigger] flat(changed) == flat(nodes).update(flat(nodes.take(i)).len() + j, changed[i].items@[j]),
{
    assert forall|changed: Seq<Node<T>>|
        changed.len() == nodes.len() && (forall|k: int| 0 <= k < nodes.len() && k != i ==> changed[k] == nodes[k])
            && changed[i].items@ == nodes[i].items@.update(j, changed[i].items@[j])
        implies #[trigger] flat(changed) == flat(nodes).update(flat(nodes.take(i)).len() + j, changed[i].items@[j]) by {
        lemma_flat_update(nodes, changed, i, j, changed[i].items@[j]);
    }
}

/// Element count wanted in the first node of a list of elements of
/// `elem_size` bytes on a machine whose words have `word_size` bytes: enough
/// that the node's bookkeeping of five words weighs little, at least four;
/// four for elements of no size.
pub open spec fn first_node_capacity(word_size: int, elem_size: int) -> int {
    if elem_size == 0 {
        4
    } else {
        let wanted = (word_size * 5) / elem_size;
        if wanted >= 4 {
            wanted
        } else {
            4
        }
    }
}

/// Whether the layout of a node for `len` elements of `T` (its bookkeeping
/// followed by the array) is valid.
pub open spec fn node_layout_ok<T>(len: int) -> bool {
    let size = vstd::layout::size_of::<T>() as int;
    let align = vstd::layout::align_of::<T>() as int;
    &&& valid_layout_int(size * len, align)
    &&& extend_ok(
        vstd::layout::size_of::<NodeHeader>(),
        vstd::layout::align_of::<NodeHeader>(),
        (size * len) as nat,
        align as nat,
    )
}

/// A list whose elements are held in arena-allocated nodes.
pub struct UnrolledList<T> {
    nodes: Vec<Node<T>>,
    len: usize,
}

impl<T> UnrolledList<T> {
    pub closed spec fn wf(&self) -> bool {
        &&& self.len == flat(self.nodes@).len()
        &&& forall|i: int| 0 <= i < self.nodes@.len() ==> 1 <= (#[trigger] self.nodes@[i]).capacity
            && self.nodes@[i].items@.len() <= self.nodes@[i].capacity
        &&& forall|i: int| 0 <= i < self.nodes@.len() - 1 ==> (#[trigger] self.nodes@[i]).items@.len()
            == self.nodes@[i].capacity
        &&& forall|i: int| 0 <= i < self.nodes@.len() ==> (#[trigger] self.nodes@[i]).addr != 0
    }

    /// The elements, in order.
    pub closed spec fn view(&self) -> Seq<T> {
        flat(self.nodes@)
    }

    /// Capacities of the nodes, in order.
    pub closed spec fn capacities(&self) -> Seq<usize> {
        self.nodes@.map_values(|n: Node<T>| n.capacity)
    }

    /// Whether there is a last node and it holds as many elements as it can.
    pub closed spec fn last_full(&self) -> bool {
        &&& self.nodes@.len() > 0
        &&& self.nodes@.last().items@.len() == self.nodes@.last().capacity
    }

    /// An empty list.
    pub fn new() -> (r: UnrolledList<T>)
        ensures
            r.wf(),
            r.view().len() == 0,
    {
        UnrolledList { nodes: Vec::new(), len: 0 }
    }

    /// Number of elements.
    pub fn len(&self) -> (r: usize)
        requires
            self.wf(),
        ensures
            r == self.view().len(),
    {
        self.len
    }

    /// Allocates a node for up to `len` elements: as many as fit in the
    /// arena's current chunk, at least one; else a whole node of `len`
    /// elements.
    fn alloc_node<A: Arena>(arena: &mut A, len: usize) -> (r: Result<Node<T>, AllocError>)
        requires
            old(arena).inv(),
            len >= 1,
        ensures
            final(arena).inv(),
            r matches Ok(n) ==> 1 <= n.capacity <= len && n.items@.len() == 0 && n.addr != 0,
            !node_layout_ok::<T>(len as int) ==> r == Err::<Node<T>, AllocError>(AllocError::InvalidLayout),
    {
        let header = Layout::new::<NodeHeader>();
        let element = Layout::new::<T>();
        let array = match element.array_of(len) {
            Ok(l) => l,
            Err(_) => return Err(AllocError::InvalidLayout),
        };
        let (whole, _) = match header.extend(array) {
            Ok(p) => p,
            Err(_) => return Err(AllocError::InvalidLayout),
        };
        match arena.try_alloc_remaining_dst_with_layout(header, element, 1..len) {
            Some((allocation, n)) => {
                proof {
                    assert(ordered_range(1..len) == (1usize, len));
                }
                Ok(Node { addr: Box::into_non_null(allocation), capacity: n, items: Vec::new() })
            },
            None => match arena.try_alloc_layout(whole) {
                Ok(allocation) => Ok(Node { addr: Box::into_non_null(allocation), capacity: len, items: Vec::new() }),
                Err(e) => Err(e),
            },
        }
    }

    /// Adds `value` at the end of the list. When the last node is full, a
    /// new node is allocated from `arena` for up to as many elements as the
    /// list holds; the first node holds at least four.
    pub fn add<A: Arena>(&mut self, arena: &mut A, value: T) -> (r: Result<(), AllocError>)
        requires
            old(self).wf(),
            old(arena).inv(),
            old(self).view().len() < usize::MAX,
        ensures
            final(self).wf(),
            final(arena).inv(),
            r is Ok ==> final(self).view() == old(self).view().push(value),
            r is Err ==> final(self).view() == old(self).view() && final(self).capacities() == old(self).capacities(),
            old(self).capacities().len() == 0 && !node_layout_ok::<T>(
                first_node_capacity(vstd::layout::size_of::<usize>() as int, vstd::layout::size_of::<T>() as int),
            ) ==> r == Err::<(), AllocError>(AllocError::InvalidLayout),
            old(self).last_full() && !node_layout_ok::<T>(old(self).view().len() as int) ==> r == Err::<
                (),
                AllocError,
            >(AllocError::InvalidLayout),
            r is Ok && old(self).capacities().len() == 0 ==> final(self).capacities().len() == 1
                && 1 <= final(self).capacities()[0] <= first_node_capacity(
                    vstd::layout::size_of::<usize>() as int, vstd::layout::size_of::<T>() as int),
            r is Ok && old(self).capacities().len() > 0 && !old(self).last_full()
                ==> final(self).capacities() == old(self).capacities(),
            r is Ok && old(self).last_full() ==> final(self).capacities().drop_last() == old(self).capacities()
                && 1 <= final(self).capacities().last() <= old(self).view().len(),
    {
        let n = self.nodes.len();
        if n == 0 {
            let size = core::mem::size_of::<T>();
            let cap = if size == 0 {
                4
            } else {
                let wanted = (core::mem::size_of::<usize>() * 5) / size;
                if wanted >= 4 { wanted } else { 4 }
            };
            let mut node = match UnrolledList::<T>::alloc_node(arena, cap) {
                Ok(node) => node,
                Err(e) => return Err(e),
            };
            node.items.push(value);
            self.nodes.push(node);
            self.len = 1;
            proof {
                assert(self.nodes@.drop_last() =~= Seq::<Node<T>>::empty());
                assert(flat(self.nodes@.drop_last()) =~= Seq::<T>::empty());
                assert(self.nodes@.last().items@ =~= seq![value]);
                assert(flat(self.nodes@) =~= seq![value]);
                assert(old(self).view() =~= Seq::<T>::empty());
            }
            return Ok(());
        }
        let last_full = self.nodes[n - 1].items.len() >= self.nodes[n - 1].capacity;
        if last_full {
            let node = match UnrolledList::<T>::alloc_node(arena, self.len) {
                Ok(node) => node,
                Err(e) => return Err(e),
            };
            let ghost before = self.nodes@;
            self.nodes.push(node);
            proof {
                assert(self.nodes@.drop_last() =~= before);
                assert(flat(self.nodes@) =~= flat(before));
            }
        }
        let ghost before = self.nodes@;
        let m = self.nodes.len();
        let mut last = self.nodes.pop().unwrap();
        last.items.push(value);
        self.nodes.push(last);
        self.len = self.len + 1;
        proof {
            assert(self.nodes@.drop_last() =~= before.drop_last());
            assert(flat(self.nodes@) =~= flat(before).push(value));
        }
        Ok(())
    }

    /// The element at `index`, if there is one.
    pub fn get(&self, index: usize) -> (r: Option<&T>)
        requires
            self.wf(),
        ensures
            index < self.view().len() ==> r == Some(&self.view()[index as int]),
            index >= self.view().len() ==> r is None,
    {
        if index >= self.len {
            return None;
        }
        let (i, j) = self.locate(index);
        Some(&self.nodes[i].items[j])
    }

    /// Node and position inside it of the element at `index`.
    fn locate(&self, index: usize) -> (r: (usize, usize))
        requires
            self.wf(),
            index < self.view().len(),
        ensures
            r.0 < self.nodes@.len(),
            r.1 < self.nodes@[r.0 as int].items@.len(),
            index == flat(self.nodes@.take(r.0 as int)).len() + r.1,
            self.view()[index as int] == self.nodes@[r.0 as int].items@[r.1 as int],
    {
        let mut offset: usize = 0;
        let mut i: usize = 0;
        while i < self.nodes.len()
            invariant
                self.wf(),
                i <= self.nodes@.len(),
                offset == flat(self.nodes@.take(i as int)).len(),
                offset <= index < self.view().len(),
            decreases self.nodes@.len() - i,
        {
            proof {
                lemma_flat_step(self.nodes@, i as int);
                lemma_flat_prefix(self.nodes@, i as int + 1);
            }
            if index - offset < self.nodes[i].items.len() {
                proof {
                    let k = index as int;
                    assert(flat(self.nodes@.take(i as int + 1))[k] == self.nodes@[i as int].items@[k - offset]);
                }
                return (i, index - offset);
            }
            offset = offset + self.nodes[i].items.len();
            i = i + 1;
        }
        proof {
            assert(self.nodes@.take(self.nodes@.len() as int) =~= self.nodes@);
        }
        (0, 0)
    }

    /// The element at `index` for writing, if there is one.
    pub fn get_mut(&mut self, index: usize) -> (r: Option<&mut T>)
        requires
            old(self).wf(),
        ensures
            final(self).wf(),
            final(self).capacities() == old(self).capacities(),
            index < old(self).view().len() ==> (r matches Some(m) && *m == old(self).view()[index as int]
                && final(self).view() == old(self).view().update(index as int, *final(m))),
            index >= old(self).view().len() ==> r is None && final(self).view() == old(self).view(),
    {
        if index >= self.len {
            return None;
        }
        let (i, j) = self.locate(index);
        proof {
            lemma_flat_update_any(self.nodes@, i as int, j as int);
        }
        Some(&mut self.nodes[i].items[j])
    }

    /// An iterator over references to the elements.
    pub fn iter(&self) -> (r: IteratorRef<'_, T>)
        requires
            self.wf(),
        ensures
            r.position() == 0,
            r.list() == *self,
    {
        IteratorRef { list: self, index: 0, node: 0, offset: 0 }
    }

    /// An iterator over the elements for writing.
    pub fn iter_mut(&mut self) -> (r: IteratorMut<'_, T>)
        requires
            old(self).wf(),
        ensures
            r.index == 0,
            *r.list == *old(self),
            *final(self) == *final(r.list),
    {
        IteratorMut { list: self, index: 0 }
    }

    /// Consumes the list into an iterator over its elements.
    pub fn into_iter(self) -> (r: Iterator<T>)
        requires
            self.wf(),
        ensures
            r.rest() == self.view(),
    {
        let ghost all = self.view();
        let UnrolledList { nodes, len: _ } = self;
        let mut nodes = nodes;
        let mut items: Vec<T> = Vec::new();
        let ghost ns = nodes@;
        let mut back: Vec<Node<T>> = reverse_vec(nodes);
        while back.len() > 0
            invariant
                items@ == flat(ns.take(ns.len() - back@.len())),
                back@.len() <= ns.len(),
                forall|i: int| 0 <= i < back@.len() ==> back@[i] == ns[ns.len() - 1 - i],
            decreases back@.len(),
        {
            let node = back.pop().unwrap();
            let ghost j = ns.len() - back@.len() - 1;
            proof {
                lemma_flat_step(ns, j);
            }
            let Node { addr: _, capacity: _, items: mut node_items } = node;
            items.append(&mut node_items);
        }
        proof {
            assert(ns.take(ns.len() as int) =~= ns);
        }
        Iterator { pending: reverse_vec(items) }
    }
}

/// What [UnrolledList::get] gives back after [UnrolledList::add]: the added
/// value at the end, the elements before it unchanged.
pub proof fn lemma_get_after_add<T>(before: &UnrolledList<T>, after: &UnrolledList<T>, value: T)
    requires
        after.view() == before.view().push(value),
    ensures
        after.view().len() == before.view().len() + 1,
        after.view()[before.view().len() as int] == value,
        forall|i: int| 0 <= i < before.view().len() ==> #[trigger] after.view()[i] == before.view()[i],
{
}

/// What [UnrolledList::get] gives back after a write through
/// [UnrolledList::get_mut]: the written value at its index, the other
/// elements unchanged.
pub proof fn lemma_get_after_write<T>(before: &UnrolledList<T>, after: &UnrolledList<T>, index: int, value: T)
    requires
        0 <= index < before.view().len(),
        after.view() == before.view().update(index, value),
    ensures
        after.view().len() == before.view().len(),
        after.view()[index] == value,
        forall|i: int| 0 <= i < before.view().len() && i != index ==> #[trigger] after.view()[i] == before.view()[i],
{
}

/// An iterator over references to the elements of an [UnrolledList].
pub struct IteratorRef<'a, T> {
    list: &'a UnrolledList<T>,
    /// Position of the next element in the list.
    index: usize,
    /// Node holding the next element, and its position there.
    node: usize,
    offset: usize,
}

impl<'a, T> IteratorRef<'a, T> {
    #[verifier::type_invariant]
    spec fn cursor_ok(self) -> bool {
        let nodes = self.list.nodes@;
        &&& self.list.wf()
        &&& self.node <= nodes.len()
        &&& self.node < nodes.len() ==> self.offset <= nodes[self.node as int].items@.len()
        &&& self.node == nodes.len() ==> self.offset == 0
        &&& self.index == flat(nodes.take(self.node as int)).len() + self.offset
    }

    /// The list iterated over.
    pub closed spec fn list(self) -> UnrolledList<T> {
        *self.list
    }

    /// Position of the next element in the list.
    pub closed spec fn position(self) -> nat {
        self.index as nat
    }

    /// The next element, if any: the iterator walks the nodes in order,
    /// moving to the next node when one is used up.
    pub fn next(&mut self) -> (r: Option<&'a T>)
        ensures
            final(self).list() == old(self).list(),
            old(self).position() < old(self).list().view().len() ==> r == Some(
                &old(self).list().view()[old(self).position() as int],
            ) && final(self).position() == old(self).position() + 1,
            old(self).position() >= old(self).list().view().len() ==> r is None && final(self).position()
                == old(self).position(),
    {
        proof { use_type_invariant(&*self); }
        let list = self.list;
        let index = self.index;
        let n = list.nodes.len();
        let mut node = self.node;
        let mut offset = self.offset;
        while node < n && offset >= list.nodes[node].items.len()
            invariant
                list.wf(),
                n == list.nodes@.len(),
                node <= n,
                node < n ==> offset <= list.nodes@[node as int].items@.len(),
                node == n ==> offset == 0,
                index == flat(list.nodes@.take(node as int)).len() + offset,
            decreases n - node,
        {
            proof {
                lemma_flat_step(list.nodes@, node as int);
            }
            node = node + 1;
            offset = 0;
        }
        if node < n {
            proof {
                lemma_flat_step(list.nodes@, node as int);
                lemma_flat_prefix(list.nodes@, node as int + 1);
                let k = index as int;
                assert(flat(list.nodes@.take(node as int + 1))[k] == list.nodes@[node as int].items@[offset as int]);
            }
            let item = &list.nodes[node].items[offset];
            *self = IteratorRef { list, index: index + 1, node, offset: offset + 1 };
            Some(item)
        } else {
            proof {
                assert(list.nodes@.take(n as int) =~= list.nodes@);
            }
            *self = IteratorRef { list, index, node, offset };
            None
        }
    }
}

/// An iterator over the elements of an [UnrolledList] for writing.
pub struct IteratorMut<'a, T> {
    pub list: &'a mut UnrolledList<T>,
    pub index: usize,
}

impl<'a, T> IteratorMut<'a, T> {
    /// The next element for writing, if any.
    pub fn next(&mut self) -> (r: Option<&mut T>)
        requires
            old(self).list.wf(),
        ensures
            final(self).list.wf(),
            *final(final(self).list) == *final(old(self).list),
            final(self).list.capacities() == old(self).list.capacities(),
            old(self).index < old(self).list.view().len() ==> (r matches Some(m) && *m == old(self).list.view()[old(
                self,
            ).index as int] && final(self).list.view() == old(self).list.view().update(
                old(self).index as int,
                *final(m),
            ) && final(self).index == old(self).index + 1),
            old(self).index >= old(self).list.view().len() ==> r is None && final(self).list.view() == old(
                self,
            ).list.view() && final(self).index == old(self).index,
    {
        let i = self.index;
        if i < self.list.len() {
            self.index = i + 1;
            self.list.get_mut(i)
        } else {
            None
        }
    }
}

/// An iterator that moves the elements out of an [UnrolledList].
pub struct Iterator<T> {
    pending: Vec<T>,
}

impl<T> Iterator<T> {
    /// Elements not yet returned, in order.
    pub closed spec fn rest(&self) -> Seq<T> {
        self.pending@.reverse()
    }

    /// The next element, if any.
    pub fn next(&mut self) -> (r: Option<T>)
        ensures
            old(self).rest().len() == 0 ==> r is None && final(self).rest().len() == 0,
            old(self).rest().len() > 0 ==> r == Some(old(self).rest()[0]) && final(self).rest() == old(self).rest().drop_first(),
    {
        let r = self.pending.pop();
        proof {
            if old(self).pending@.len() > 0 {
                assert(self.pending@.reverse() =~= old(self).pending@.reverse().drop_first());
            }
        }
        r
    }
}

} // verus!
