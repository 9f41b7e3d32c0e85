//! An owned arena allocation: the address it was placed at and the value
//! that lives there.
use vstd::prelude::*;

verus! {

/// A run of `len` items that were allocated but not initialized.
#[derive(Clone, Copy, Debug, PartialEq, Eq, Structural)]
pub struct Uninit {
    /// Number of items.
    pub len: usize,
}

/// An owned pointer to an arena-allocated value.
#[derive(Debug)]
pub struct Box<T> {
    addr: usize,
    value: T,
}

impl<T> Box<T> {
    /// Address of the allocation.
    pub closed spec fn address(self) -> usize {
        self.addr
    }

    /// The value held.
    pub closed spec fn content(self) -> T {
        self.value
    }

    #[verifier::type_invariant]
    spec fn non_null(self) -> bool {
        self.addr != 0
    }

    /// Takes ownership of a value placed at a non-null address.
    pub fn from_parts(addr: usize, value: T) -> (r: Box<T>)
        requires
            addr != 0,
        ensures
            r.address() == addr,
            r.content() == value,
    {
        Box { addr, value }
    }

    /// The address of the box's content.
    pub fn as_ptr(this: &Self) -> (r: usize)
        ensures
            r == this.address(),
            r != 0,
    {
        proof { use_type_invariant(this); }
        this.addr
    }

    /// The address of the box's content, for writing.
    pub fn as_mut_ptr(this: &mut Self) -> (r: usize)
        ensures
            r == old(this).address(),
            r != 0,
            *final(this) == *old(this),
    {
        proof { use_type_invariant(&*this); }
        this.addr
    }

    /// Consumes the box, returning the address; the value is not dropped.
    pub fn into_raw(this: Self) -> (r: usize)
        ensures
            r == this.address(),
    {
        let Box { addr, value } = this;
        leak(value);
        addr
    }

    /// Consumes the box, returning the address, which is never zero.
    pub fn into_non_null(this: Self) -> (r: usize)
        ensures
            r == this.address(),
            r != 0,
    {
        proof { use_type_invariant(&this); }
        Box::into_raw(this)
    }

    /// Consumes the box, returning the value.
    pub fn into_inner(this: Self) -> (r: T)
        ensures
            r == this.content(),
    {
        let Box { addr: _, value } = this;
        value
    }

    /// A reference to the value.
    pub fn get(&self) -> (r: &T)
        ensures
            *r == self.content(),
    {
        &self.value
    }

    /// Replaces the value, keeping the allocation.
    pub fn set(&mut self, value: T)
        ensures
            final(self).content() == value,
            final(self).address() == old(self).address(),
    {
        proof { use_type_invariant(&*self); }
        self.value = value;
    }

    /// Moves the value out, keeping the allocation: the value, and a box of
    /// one uninitialized item at the same address.
    pub fn take(this: Self) -> (r: (T, Box<Uninit>))
        ensures
            r.0 == this.content(),
            r.1.address() == this.address(),
            r.1.content().len == 1,
    {
        proof { use_type_invariant(&this); }
        let Box { addr, value } = this;
        (value, Box { addr, value: Uninit { len: 1 } })
    }

    /// Converts a box into a box of a one-element slice at the same address.
    pub fn into_boxed_slice(this: Self) -> (r: Box<Vec<T>>)
        ensures
            r.address() == this.address(),
            r.content()@ == seq![this.content()],
    {
        proof { use_type_invariant(&this); }
        let Box { addr, value } = this;
        let mut v: Vec<T> = Vec::new();
        v.push(value);
        Box { addr, value: v }
    }
}

impl<T> Box<Vec<T>> {
    /// Number of elements of a boxed slice.
    pub fn len(&self) -> (r: usize)
        ensures
            r == self.content()@.len(),
    {
        self.value.len()
    }

    /// The boxed slice as an array of `N` elements: `Ok` when it has exactly
    /// `N` of them, else the box given back. Either way nothing moves.
    pub fn into_array<const N: usize>(self) -> (r: Result<Box<Vec<T>>, Box<Vec<T>>>)
        ensures
            r is Ok <==> self.content()@.len() == N,
            match r {
                Ok(b) => b == self,
                Err(b) => b == self,
            },
    {
        if self.value.len() == N {
            Ok(self)
        } else {
            Err(self)
        }
    }
}

impl Box<Uninit> {
    /// Number of uninitialized items.
    pub fn uninit_len(&self) -> (r: usize)
        ensures
            r == self.content().len,
    {
        self.value.len
    }

    /// Writes `value` into the room for one item and gives the box of it.
    pub fn write<T>(this: Self, value: T) -> (r: Box<T>)
        requires
            this.content().len == 1,
        ensures
            r.address() == this.address(),
            r.content() == value,
    {
        proof { use_type_invariant(&this); }
        Box { addr: this.addr, value }
    }
}

/// Calls `core::mem::forget`: the value is leaked and its destructor never
/// runs. Nothing is claimed about it.
#[verifier::external_body]
fn leak<T>(value: T) {
    core::mem::forget(value)
}

} // verus!
