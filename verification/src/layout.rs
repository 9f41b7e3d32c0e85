//! Size and alignment of a block of memory, with the arithmetic that the
//! arena uses to place headers, arrays and padding.
use vstd::prelude::*;
use vstd::arithmetic::power2::is_pow2;
use vstd::layout::valid_layout;

verus! {

/// Largest multiple of `a` that is not above `x`.
pub open spec fn align_down(x: int, a: int) -> int {
    x - x % a
}

/// Smallest multiple of `a` that is not below `x`.
pub open spec fn align_up(x: int, a: int) -> int {
    if x % a == 0 {
        x
    } else {
        x + (a - x % a)
    }
}

/// Facts about rounding to a multiple of a positive number.
pub proof fn lemma_align(x: int, a: int)
    requires
        a > 0,
        x >= 0,
    ensures
        align_down(x, a) % a == 0,
        0 <= align_down(x, a) <= x,
        x - align_down(x, a) < a,
        align_up(x, a) % a == 0,
        x <= align_up(x, a) < x + a,
        forall|m: int| #![trigger m % a] m % a == 0 && x <= m ==> align_up(x, a) <= m,
        forall|m: int| #![trigger m % a] m % a == 0 && m <= x ==> m <= align_down(x, a),
{
    let q = x / a;
    let r = x % a;
    assert(x == q * a + r && 0 <= r < a) by {
        vstd::arithmetic::div_mod::lemma_fundamental_div_mod(x, a);
    }
    assert(align_down(x, a) == q * a);
    assert((q * a) % a == 0) by {
        vstd::arithmetic::div_mod::lemma_mod_multiples_basic(q, a);
    }
    if r != 0 {
        assert(align_up(x, a) == (q + 1) * a) by (nonlinear_arith)
            requires
                align_up(x, a) == x + (a - r),
                x == q * a + r,
        ;
        assert(((q + 1) * a) % a == 0) by {
            vstd::arithmetic::div_mod::lemma_mod_multiples_basic(q + 1, a);
        }
    }
    assert forall|m: int| #![trigger m % a] m % a == 0 && x <= m implies align_up(x, a) <= m by {
        let k = m / a;
        assert(m == k * a) by {
            vstd::arithmetic::div_mod::lemma_fundamental_div_mod(m, a);
        }
        if r != 0 {
            assert(k * a > q * a);
            assert(k > q) by (nonlinear_arith)
                requires
                    k * a > q * a,
                    a > 0,
            ;
            assert(k * a >= (q + 1) * a) by (nonlinear_arith)
                requires
                    k >= q + 1,
                    a > 0,
            ;
        }
    }
    assert forall|m: int| #![trigger m % a] m % a == 0 && m <= x implies m <= align_down(x, a) by {
        let k = m / a;
        assert(m == k * a) by {
            vstd::arithmetic::div_mod::lemma_fundamental_div_mod(m, a);
        }
        assert(k * a < (q + 1) * a) by (nonlinear_arith)
            requires
                k * a <= q * a + r,
                r < a,
        ;
        assert(k < q + 1) by (nonlinear_arith)
            requires
                k * a < (q + 1) * a,
                a > 0,
        ;
        assert(k * a <= q * a) by (nonlinear_arith)
            requires
                k <= q,
                a > 0,
        ;
    }
}

/// A power of two is at least one.
pub proof fn lemma_pow2_positive(a: int)
    requires
        is_pow2(a),
    ensures
        a >= 1,
{
    reveal(is_pow2);
}

/// The size, rounded up to the alignment, of a valid layout does not exceed
/// `isize::MAX`.
pub proof fn lemma_valid_padded(size: int, align: int)
    requires
        is_pow2(align),
        0 <= size <= isize::MAX as int - (isize::MAX as int % align),
    ensures
        align >= 1,
        align_up(size, align) <= isize::MAX as int - (isize::MAX as int % align),
        align_up(size, align) <= isize::MAX,
{
    lemma_pow2_positive(align);
    lemma_align(size, align);
    lemma_align(isize::MAX as int, align);
    assert(align_down(isize::MAX as int, align) % align == 0);
}

/// Whether `n` is a power of two, computed by halving.
pub fn is_power_of_two(n: usize) -> (r: bool)
    ensures
        r == is_pow2(n as int),
{
    if n == 0 {
        proof { reveal(is_pow2); }
        return false;
    }
    let mut m: usize = n;
    while m % 2 == 0
        invariant
            m >= 1,
            is_pow2(n as int) == is_pow2(m as int),
        decreases m,
    {
        proof {
            reveal(is_pow2);
        }
        m = m / 2;
    }
    proof {
        reveal(is_pow2);
    }
    m == 1
}

/// Smallest multiple of `align` not below `size`, or `None` when that does not
/// fit in a `usize`.
pub fn checked_align_up(size: usize, align: usize) -> (r: Option<usize>)
    requires
        align > 0,
    ensures
        match r {
            Some(v) => v == align_up(size as int, align as int),
            None => align_up(size as int, align as int) > usize::MAX,
        },
{
    let rem = size % align;
    if rem == 0 {
        Some(size)
    } else {
        size.checked_add(align - rem)
    }
}

/// Largest multiple of `align` not above `x`.
pub fn align_down_exec(x: usize, align: usize) -> (r: usize)
    requires
        align > 0,
    ensures
        r == align_down(x as int, align as int),
        r <= x,
        r % align == 0,
{
    proof {
        lemma_align(x as int, align as int);
    }
    x - x % align
}

/// Layout of a block of memory: its size in bytes and its alignment.
#[derive(Clone, Copy, Debug, PartialEq, Eq, Structural)]
pub struct Layout {
    size: usize,
    align: usize,
}

/// Why a layout could not be built: its size, rounded up to its alignment,
/// would exceed `isize::MAX`, or the alignment is not a power of two.
#[derive(Clone, Copy, Debug, PartialEq, Eq, Structural)]
pub struct LayoutError;

impl Layout {
    #[verifier::type_invariant]
    spec fn valid(self) -> bool {
        valid_layout(self.size, self.align)
    }

    /// Size in bytes.
    pub closed spec fn size_spec(self) -> nat {
        self.size as nat
    }

    /// Alignment in bytes.
    pub closed spec fn align_spec(self) -> nat {
        self.align as nat
    }

    /// Size in bytes.
    pub fn size(&self) -> (r: usize)
        ensures
            r == self.size_spec(),
            valid_layout(r, self.align_spec() as usize),
            self.align_spec() >= 1,
            self.align_spec() <= usize::MAX,
            align_up(r as int, self.align_spec() as int) <= isize::MAX,
    {
        proof {
            use_type_invariant(self);
            lemma_valid_padded(self.size as int, self.align as int);
        }
        self.size
    }

    /// Alignment in bytes, a power of two.
    pub fn align(&self) -> (r: usize)
        ensures
            r == self.align_spec(),
            is_pow2(r as int),
            r >= 1,
            valid_layout(self.size_spec() as usize, r),
            align_up(self.size_spec() as int, r as int) <= isize::MAX,
    {
        proof {
            use_type_invariant(self);
            lemma_valid_padded(self.size as int, self.align as int);
        }
        self.align
    }

    /// Builds a layout from a size and an alignment; `Err` unless the
    /// alignment is a power of two and the size, rounded up to it, does not
    /// exceed `isize::MAX`.
    pub fn from_size_align(size: usize, align: usize) -> (r: Result<Layout, LayoutError>)
        ensures
            r is Ok <==> valid_layout(size, align),
            r matches Ok(l) ==> l.size_spec() == size && l.align_spec() == align,
    {
        if !is_power_of_two(align) {
            return Err(LayoutError);
        }
        proof { lemma_pow2_positive(align as int); }
        let max: usize = isize::MAX as usize;
        proof { lemma_align(max as int, align as int); }
        if size > max - max % align {
            return Err(LayoutError);
        }
        Ok(Layout { size, align })
    }

    /// Layout of a value of type `T`.
    pub fn new<T>() -> (r: Layout)
        ensures
            r.size_spec() == vstd::layout::size_of::<T>(),
            r.align_spec() == vstd::layout::align_of::<T>(),
    {
        vstd::layout::layout_for_type_is_valid::<T>();
        Layout { size: core::mem::size_of::<T>(), align: core::mem::align_of::<T>() }
    }

    /// The layout of `()`: no bytes, alignment one.
    pub fn unit() -> (r: Layout)
        ensures
            r.size_spec() == 0,
            r.align_spec() == 1,
    {
        proof {
            reveal(is_pow2);
        }
        Layout { size: 0, align: 1 }
    }

    /// The same alignment, with the size rounded up to it.
    pub fn pad_to_align(&self) -> (r: Layout)
        ensures
            r.align_spec() == self.align_spec(),
            r.size_spec() == align_up(self.size_spec() as int, self.align_spec() as int),
    {
        proof {
            use_type_invariant(self);
            lemma_valid_padded(self.size as int, self.align as int);
            lemma_align(self.size as int, self.align as int);
        }
        let rem = self.size % self.align;
        let new_size = if rem == 0 { self.size } else { self.size + (self.align - rem) };
        Layout { size: new_size, align: self.align }
    }

    /// Layout of `self` followed by `next`, with `next` placed at the first
    /// offset aligned for it; returns that layout and the offset of `next`.
    /// `Err` when the combined size would not make a valid layout.
    pub fn extend(&self, next: Layout) -> (r: Result<(Layout, usize), LayoutError>)
        ensures
            r is Ok <==> extend_ok(self.size_spec(), self.align_spec(), next.size_spec(), next.align_spec()),
            r matches Ok((l, off)) ==> {
                &&& off == align_up(self.size_spec() as int, next.align_spec() as int)
                &&& l.size_spec() == off + next.size_spec()
                &&& l.align_spec() == max_align(self.align_spec(), next.align_spec())
            },
    {
        let a1 = self.align();
        let s1 = self.size();
        let a2 = next.align();
        let s2 = next.size();
        let new_align = if a1 >= a2 { a1 } else { a2 };
        proof {
            lemma_align(s1 as int, a2 as int);
        }
        let offset = match checked_align_up(s1, a2) {
            Some(o) => o,
            None => return Err(LayoutError),
        };
        let new_size = match offset.checked_add(s2) {
            Some(s) => s,
            None => return Err(LayoutError),
        };
        match Layout::from_size_align(new_size, new_align) {
            Ok(l) => Ok((l, offset)),
            Err(e) => Err(e),
        }
    }

    /// Layout of `n` copies of `self`, each padded to the alignment; returns
    /// that layout and the distance between consecutive copies.
    pub fn repeat(&self, n: usize) -> (r: Result<(Layout, usize), LayoutError>)
        ensures
            r is Ok <==> valid_layout_int(
                align_up(self.size_spec() as int, self.align_spec() as int) * n,
                self.align_spec() as int,
            ),
            r matches Ok((l, stride)) ==> {
                &&& stride == align_up(self.size_spec() as int, self.align_spec() as int)
                &&& l.size_spec() == stride * n
                &&& l.align_spec() == self.align_spec()
            },
    {
        let padded = self.pad_to_align();
        let stride = padded.size();
        let a = self.align();
        proof {
            lemma_pow2_positive(a as int);
            assert(stride * n >= 0) by (nonlinear_arith)
                requires
                    stride >= 0,
                    n >= 0,
            ;
        }
        let total = match stride.checked_mul(n) {
            Some(t) => t,
            None => return Err(LayoutError),
        };
        match Layout::from_size_align(total, a) {
            Ok(l) => Ok((l, stride)),
            Err(e) => Err(e),
        }
    }

    /// Layout of an array of `n` elements of layout `self`.
    pub fn array_of(&self, n: usize) -> (r: Result<Layout, LayoutError>)
        ensures
            r is Ok <==> valid_layout_int(self.size_spec() * n, self.align_spec() as int),
            r matches Ok(l) ==> l.size_spec() == self.size_spec() * n && l.align_spec()
                == self.align_spec(),
    {
        let s = self.size();
        let a = self.align();
        proof {
            assert(s * n >= 0) by (nonlinear_arith)
                requires
                    s >= 0,
                    n >= 0,
            ;
        }
        let total = match s.checked_mul(n) {
            Some(t) => t,
            None => return Err(LayoutError),
        };
        Layout::from_size_align(total, a)
    }
}

/// The larger of two alignments.
pub open spec fn max_align(a: nat, b: nat) -> nat {
    if a >= b {
        a
    } else {
        b
    }
}

/// `valid_layout` for a size given as an unbounded integer.
pub open spec fn valid_layout_int(size: int, align: int) -> bool {
    0 <= size <= usize::MAX && 0 <= align <= usize::MAX && valid_layout(size as usize, align as usize)
}

/// When `extend` succeeds.
pub open spec fn extend_ok(s1: nat, a1: nat, s2: nat, a2: nat) -> bool {
    valid_layout_int(align_up(s1 as int, a2 as int) + s2, max_align(a1, a2) as int)
}

} // verus!
