//! Layout descriptors and address-alignment arithmetic shared by every
//! allocation strategy.

use vstd::prelude::*;

verus! {

use vstd::arithmetic::div_mod::{
    lemma_fundamental_div_mod, lemma_mod_division_less_than_divisor, lemma_mod_multiples_basic,
    lemma_mod_self_0,
};

/// A positive power of two: 1, 2, 4, 8, ...
pub open spec fn is_pow2(n: int) -> bool
    decreases n,
{
    if n <= 0 {
        false
    } else if n == 1 {
        true
    } else {
        n % 2 == 0 && is_pow2(n / 2)
    }
}

/// Every power of two is positive.
pub proof fn lemma_pow2_pos(n: int)
    requires
        is_pow2(n),
    ensures
        n >= 1,
{
}

/// Of two powers of two, the smaller one is at most half of a strictly
/// larger one.
proof fn lemma_pow2_smaller_half(a: int, b: int)
    requires
        is_pow2(a),
        is_pow2(b),
        a < b,
    ensures
        a <= b / 2,
    decreases b,
{
    lemma_fundamental_div_mod(b, 2);
    if a == 1 {
    } else {
        lemma_fundamental_div_mod(a, 2);
        if a / 2 < b / 2 {
            lemma_pow2_smaller_half(a / 2, b / 2);
        }
    }
}

/// The smaller of two powers of two divides the larger.
pub proof fn lemma_pow2_divides(a: int, b: int)
    requires
        is_pow2(a),
        is_pow2(b),
        a <= b,
    ensures
        b % a == 0,
    decreases b,
{
    if a == b {
        lemma_mod_self_0(a);
    } else {
        lemma_pow2_smaller_half(a, b);
        lemma_pow2_divides(a, b / 2);
        lemma_fundamental_div_mod(b, 2);
        lemma_fundamental_div_mod(b / 2, a);
        let q = (b / 2) / a;
        assert(b == a * (2 * q)) by (nonlinear_arith)
            requires
                b == 2 * (b / 2),
                b / 2 == a * q,
        ;
        lemma_mod_multiples_basic(2 * q, a);
        assert(b == (2 * q) * a) by (nonlinear_arith)
            requires
                b == a * (2 * q),
        ;
    }
}

/// Divisibility is transitive: if `m` divides `x` and `d` divides `m`,
/// then `d` divides `x`.
pub proof fn lemma_divides_transitive(x: int, m: int, d: int)
    requires
        m >= 1,
        d >= 1,
        x % m == 0,
        m % d == 0,
    ensures
        x % d == 0,
{
    lemma_fundamental_div_mod(x, m);
    lemma_fundamental_div_mod(m, d);
    let qx = x / m;
    let qm = m / d;
    assert(x == (qx * qm) * d) by (nonlinear_arith)
        requires
            x == m * qx,
            m == d * qm,
    ;
    lemma_mod_multiples_basic(qx * qm, d);
}

/// `addr` rounded up to the next multiple of `align`.
pub open spec fn align_up_spec(addr: int, align: int) -> int
    recommends
        align >= 1,
{
    if addr % align == 0 {
        addr
    } else {
        addr + align - addr % align
    }
}

/// Rounding up lands on a multiple of `align`, moves the address forward by
/// less than one alignment step, and fixes an already aligned address.
pub proof fn lemma_align_up(addr: int, align: int)
    requires
        addr >= 0,
        align >= 1,
    ensures
        align_up_spec(addr, align) % align == 0,
        addr <= align_up_spec(addr, align) < addr + align,
{
    let r = addr % align;
    lemma_mod_division_less_than_divisor(addr, align);
    if r == 0 {
    } else {
        lemma_fundamental_div_mod(addr, align);
        let q = addr / align;
        assert(align_up_spec(addr, align) == (q + 1) * align) by (nonlinear_arith)
            requires
                addr == align * q + r,
                align_up_spec(addr, align) == addr + align - r,
        ;
        lemma_mod_multiples_basic(q + 1, align);
    }
}

/// Rounds `addr` up to the next multiple of `align`.
pub fn align_up(addr: usize, align: usize) -> (r: usize)
    requires
        is_pow2(align as int),
        align_up_spec(addr as int, align as int) <= usize::MAX,
    ensures
        r == align_up_spec(addr as int, align as int),
        r % align == 0,
        addr <= r < addr + align,
{
    proof {
        lemma_pow2_pos(align as int);
        lemma_align_up(addr as int, align as int);
    }
    let rem: usize = addr % align;
    if rem == 0 {
        addr
    } else {
        addr + (align - rem)
    }
}

/// A (size, alignment) pair describing one allocation request.  The
/// alignment is a power of two, and the size rounded up to that alignment
/// fits in the address space.
#[derive(Clone, Copy, Debug, PartialEq, Eq, Structural)]
pub struct Layout {
    size: usize,
    align: usize,
}

impl Layout {
    /// The requested size in bytes.
    pub closed spec fn spec_size(self) -> int {
        self.size as int
    }

    /// The requested alignment in bytes.
    pub closed spec fn spec_align(self) -> int {
        self.align as int
    }

    /// Both components are machine words.
    pub proof fn lemma_bounds(self)
        ensures
            0 <= self.spec_size() <= usize::MAX,
            0 <= self.spec_align() <= usize::MAX,
    {
    }

    /// A layout is valid when its alignment is a power of two and rounding
    /// the size up to the alignment does not overflow address arithmetic.
    pub open spec fn valid(self) -> bool {
        &&& is_pow2(self.spec_align())
        &&& align_up_spec(self.spec_size(), self.spec_align()) <= usize::MAX
    }

    /// Builds a layout after validating it, as the allocation call sites do.
    pub fn from_size_align(size: usize, align: usize) -> (r: Option<Layout>)
        ensures
            match r {
                Some(l) => l.valid() && l.spec_size() == size && l.spec_align() == align,
                None => !(is_pow2(align as int) && align_up_spec(
                    size as int,
                    align as int,
                ) <= usize::MAX),
            },
    {
        if !is_power_of_two(align) {
            return None;
        }
        proof {
            lemma_pow2_pos(align as int);
            lemma_mod_division_less_than_divisor(size as int, align as int);
        }
        let rem: usize = size % align;
        if rem != 0 && size > usize::MAX - (align - rem) {
            return None;
        }
        Some(Layout { size, align })
    }

    pub fn size(&self) -> (s: usize)
        ensures
            s == self.spec_size(),
    {
        self.size
    }

    pub fn align(&self) -> (a: usize)
        ensures
            a == self.spec_align(),
    {
        self.align
    }
}

/// Decides whether `x` is a power of two by stripping factors of two.
pub fn is_power_of_two(x: usize) -> (b: bool)
    ensures
        b == is_pow2(x as int),
{
    if x == 0 {
        return false;
    }
    let mut m: usize = x;
    while m % 2 == 0
        invariant
            m >= 1,
            is_pow2(x as int) == is_pow2(m as int),
        decreases m,
    {
        m = m / 2;
    }
    m == 1
}

} // verus!
