//! Measured quantities, carried as single-precision numbers by their bit
//! pattern. Nothing here computes with them: they are stored and ordered.

use vstd::prelude::*;
use vstd::arithmetic::power2::pow2;

verus! {

/// A single-precision number (IEEE 754 binary32) as its bit pattern.
#[derive(Debug, Clone, Copy, PartialEq, Eq, Structural)]
pub struct Real32 {
    pub bits: u32,
}

impl Real32 {
    /// Whether the bits are no number.
    pub open spec fn is_nan_spec(self) -> bool {
        self.bits % 0x8000_0000 > 0x7f80_0000
    }

    /// The place of the number in the order of all numbers: magnitudes order
    /// like their bits, and the two zeros are one number.
    pub open spec fn place(self) -> int {
        if self.bits >= 0x8000_0000 {
            -(self.bits - 0x8000_0000)
        } else {
            self.bits as int
        }
    }

    /// Whether the number is below `other`; never so where either is no
    /// number.
    pub open spec fn below(self, other: Real32) -> bool {
        !self.is_nan_spec() && !other.is_nan_spec() && self.place() < other.place()
    }

    /// Whether the two are the same number.
    pub open spec fn same(self, other: Real32) -> bool {
        !self.is_nan_spec() && !other.is_nan_spec() && self.place() == other.place()
    }

    /// Whether the bits are no number.
    pub fn is_nan(&self) -> (r: bool)
        ensures
            r == self.is_nan_spec(),
    {
        self.bits % 0x8000_0000 > 0x7f80_0000
    }

    fn key(&self) -> (r: i64)
        ensures
            r == self.place(),
    {
        if self.bits >= 0x8000_0000 {
            -((self.bits - 0x8000_0000) as i64)
        } else {
            self.bits as i64
        }
    }

    /// Whether the number is below `other`.
    pub fn lt(&self, other: &Real32) -> (r: bool)
        ensures
            r == self.below(*other),
    {
        !self.is_nan() && !other.is_nan() && self.key() < other.key()
    }

    /// Whether the two are the same number.
    pub fn equals(&self, other: &Real32) -> (r: bool)
        ensures
            r == self.same(*other),
    {
        !self.is_nan() && !other.is_nan() && self.key() == other.key()
    }
}

/// Numbers are strictly and totally ordered.
pub proof fn numbers_are_ordered(a: Real32, b: Real32, c: Real32)
    requires
        !a.is_nan_spec(),
        !b.is_nan_spec(),
        !c.is_nan_spec(),
    ensures
        !a.below(a),
        a.below(b) && b.below(c) ==> a.below(c),
        a.below(b) || b.below(a) || a.same(b),
        a.below(b) ==> !b.below(a) && !a.same(b),
{
}

/// The size of the finite number with magnitude bits `m`, in units of the
/// smallest one (2 to the power -149): 8 bits of exponent above 23 of
/// fraction, with a hidden one unless the exponent is 0.
pub open spec fn size(m: int) -> int {
    let (e, f) = (m / 0x80_0000, m % 0x80_0000);
    if e == 0 {
        f
    } else {
        (0x80_0000 + f) * pow2((e - 1) as nat)
    }
}

/// The value of a finite number, in the same units.
pub open spec fn value(x: Real32) -> int {
    if x.bits >= 0x8000_0000 {
        -size(x.bits - 0x8000_0000)
    } else {
        size(x.bits as int)
    }
}

proof fn lemma_size(p: int, q: int)
    requires
        0 <= p < q,
    ensures
        0 <= size(p) < size(q),
{
    let (e, f) = (p / 0x80_0000, p % 0x80_0000);
    let (g, h) = (q / 0x80_0000, q % 0x80_0000);
    assert(e <= g);
    vstd::arithmetic::power2::lemma2_to64();
    if g > 0 {
        vstd::arithmetic::power2::lemma_pow2_pos((g - 1) as nat);
    }
    if e > 0 {
        vstd::arithmetic::power2::lemma_pow2_pos((e - 1) as nat);
        vstd::arithmetic::power2::lemma_pow2_unfold(e as nat);
        let t = pow2((e - 1) as nat) as int;
        assert(0 <= (0x80_0000 + f) * t < 0x80_0000 * (2 * t)) by (nonlinear_arith)
            requires
                0 <= f < 0x80_0000,
                t > 0,
        ;
    }
    if e == g {
        if e > 0 {
            let t = pow2((e - 1) as nat) as int;
            assert((0x80_0000 + f) * t < (0x80_0000 + h) * t) by (nonlinear_arith)
                requires
                    f < h,
                    t > 0,
            ;
        }
    } else {
        let (t, u) = (pow2(e as nat) as int, pow2((g - 1) as nat) as int);
        if e < g - 1 {
            vstd::arithmetic::power2::lemma_pow2_strictly_increases(e as nat, (g - 1) as nat);
        }
        assert(t <= u);
        assert(0x80_0000 * t <= (0x80_0000 + h) * u) by (nonlinear_arith)
            requires
                0 <= h,
                0 <= t <= u,
        ;
    }
}

/// The order of numbers is that of their values.
pub proof fn values_order_numbers(a: Real32, b: Real32)
    requires
        a.bits % 0x8000_0000 < 0x7f80_0000,
        b.bits % 0x8000_0000 < 0x7f80_0000,
    ensures
        a.below(b) <==> value(a) < value(b),
        a.same(b) <==> value(a) == value(b),
{
    let p = a.bits as int % 0x8000_0000;
    let q = b.bits as int % 0x8000_0000;
    if p < q {
        lemma_size(p, q);
    } else if q < p {
        lemma_size(q, p);
    }
    if p > 0 {
        lemma_size(0, p);
    }
    if q > 0 {
        lemma_size(0, q);
    }
    assert(size(0) == 0);
}

/// Nothing is below or the same as what is no number, nor the other way
/// round.
pub proof fn what_is_no_number_has_no_place(a: Real32, b: Real32)
    requires
        a.bits % 0x8000_0000 > 0x7f80_0000,
    ensures
        !a.below(b) && !b.below(a) && !a.same(b) && !b.same(a),
{
}

} // verus!
