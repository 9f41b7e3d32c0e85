//! A reference-counted pointer to an arena-allocated value that runs the
//! value's destructor when the last reference goes. Only strong references
//! are counted.
use vstd::prelude::*;
use std::rc::Rc;
use crate::layout::Layout;
use crate::arena::Arena;
use crate::boxed::Box;
use crate::AllocError;

verus! {

/// What the arena holds for a reference-counted value: the count and the
/// value.
pub struct StrongRcInner<T> {
    pub count: usize,
    pub value: T,
}

/// Calls `Rc::clone`: another pointer to the same value.
#[verifier::external_body]
fn rc_clone<T>(rc: &Rc<T>) -> (r: Rc<T>)
    ensures
        *r == **rc,
{
    Rc::clone(rc)
}

/// Calls `Rc::strong_count`. The count depends on the other pointers alive,
/// so only that it is positive is claimed.
#[verifier::external_body]
fn rc_strong_count<T>(rc: &Rc<T>) -> (r: usize)
    ensures
        r >= 1,
{
    Rc::strong_count(rc)
}

/// Calls `Rc::get_mut`: a reference into the value, when no other pointer
/// to it exists. Whether one exists depends on the other pointers alive, so
/// which of the two outcomes comes is not claimed; when the reference is
/// given, it reads the value and what is written through it is the value
/// afterwards.
#[verifier::external_body]
fn rc_get_mut<T>(rc: &mut Rc<T>) -> (r: Option<&mut T>)
    ensures
        r is None ==> *final(rc) == *old(rc),
        r matches Some(m) ==> *m == **old(rc) && **final(rc) == *final(m),
{
    Rc::get_mut(rc)
}

/// A simple reference-counted pointer to an arena-allocated value.
pub struct StrongRc<T> {
    addr: usize,
    inner: Rc<T>,
}

impl<T> StrongRc<T> {
    /// Address of the allocation.
    pub closed spec fn address(self) -> usize {
        self.addr
    }

    /// The value pointed to.
    pub closed spec fn content(self) -> T {
        *self.inner
    }

    /// Allocates `value` in `arena` with a count of one.
    pub fn try_new_in<A: Arena>(value: T, arena: &mut A) -> (r: Result<StrongRc<T>, AllocError>)
        requires
            old(arena).inv(),
        ensures
            final(arena).inv(),
            r matches Ok(rc) ==> rc.content() == value && (rc.address() as int) % (vstd::layout::align_of::<
                StrongRcInner<T>,
            >() as int) == 0,
    {
        let layout = Layout::new::<StrongRcInner<T>>();
        match arena.try_alloc_layout(layout) {
            Ok(b) => Ok(StrongRc { addr: Box::into_non_null(b), inner: Rc::new(value) }),
            Err(e) => Err(e),
        }
    }

    /// A reference to the value.
    pub fn get(&self) -> (r: &T)
        ensures
            *r == self.content(),
    {
        &*self.inner
    }

    /// The address of the value.
    pub fn as_ptr(this: &Self) -> (r: usize)
        ensures
            r == this.address(),
    {
        this.addr
    }

    /// Whether this is the only reference to the value.
    pub fn is_unique(this: &Self) -> (r: bool) {
        rc_strong_count(&this.inner) == 1
    }

    /// The value for writing, when this is the only reference to it.
    pub fn get_mut(this: &mut Self) -> (r: Option<&mut T>)
        ensures
            final(this).address() == old(this).address(),
            r is None ==> final(this).content() == old(this).content(),
            r matches Some(m) ==> *m == old(this).content() && final(this).content() == *final(m),
    {
        rc_get_mut(&mut this.inner)
    }

    /// A reference that no other one shares: `this` when it is the only one,
    /// else a new allocation in `arena` of the value made by `with` from the
    /// shared one (`this` is dropped, which lowers the shared count).
    pub fn into_unique_with<A: Arena, F: FnOnce(&T) -> T>(this: Self, arena: &mut A, with: F) -> (r: Result<Self, AllocError>)
        requires
            old(arena).inv(),
            with.requires((&this.content(),)),
        ensures
            final(arena).inv(),
            r matches Ok(rc) ==> rc == this || with.ensures((&this.content(),), rc.content()),
    {
        if rc_strong_count(&this.inner) != 1 {
            let v = with(&*this.inner);
            StrongRc::try_new_in(v, arena)
        } else {
            Ok(this)
        }
    }

    /// A reference that no other one shares: `this` when it is the only one,
    /// else a new allocation in `arena` of a clone of the value (`this` is
    /// dropped, which lowers the shared count).
    pub fn into_unique<A: Arena>(this: Self, arena: &mut A) -> (r: Result<Self, AllocError>)
        where T: Clone
        requires
            old(arena).inv(),
        ensures
            final(arena).inv(),
            r matches Ok(rc) ==> rc == this || cloned(this.content(), rc.content()),
    {
        if StrongRc::is_unique(&this) {
            Ok(this)
        } else {
            let v = this.get().clone();
            StrongRc::try_new_in(v, arena)
        }
    }

    /// Another reference to the same value.
    pub fn clone_ref(&self) -> (r: Self)
        ensures
            r.content() == self.content(),
            r.address() == self.address(),
    {
        StrongRc { addr: self.addr, inner: rc_clone(&self.inner) }
    }
}

impl<T> Clone for StrongRc<T> {
    /// Another reference to the same value.
    fn clone(&self) -> (r: Self)
        ensures
            r.content() == self.content(),
            r.address() == self.address(),
    {
        self.clone_ref()
    }
}

} // verus!
