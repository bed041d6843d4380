//! Non-negative real numbers, kept by their IEEE 754 bit patterns.
//!
//! The library stores, compares and selects such numbers; the arithmetic on
//! them is done outside. Bit patterns of non-negative numbers are ordered as the
//! numbers are, so comparing patterns compares numbers.

use vstd::arithmetic::power2::*;
use vstd::prelude::*;

verus! {

/// Full scale: the pattern of one, in single precision.
pub const ONE: u32 = 0x3f80_0000;

/// Whether a single-precision pattern stands for no number at all.
pub open spec fn is_nan(bits: u32) -> bool {
    bits % 0x8000_0000 > 0x7f80_0000
}

/// Whether a single-precision pattern stands for a finite number of either sign.
pub open spec fn is_finite(bits: u32) -> bool {
    bits % 0x8000_0000 < 0x7f80_0000
}

/// The time left, if the finite number with this pattern is above zero.
pub open spec fn left_of(bits: u32) -> Option<Single> {
    if 0 < bits < 0x8000_0000 {
        Some(Single { bits })
    } else {
        None
    }
}

/// Decide whether any time is left. `bits` is the pattern of a finite number of
/// either sign.
pub fn time_left(bits: u32) -> (r: Option<Single>)
    requires
        is_finite(bits),
    ensures
        r == left_of(bits),
        r matches Some(time) ==> time.is_number(),
{
    if 0 < bits && bits < 0x8000_0000 {
        Some(Single { bits })
    } else {
        None
    }
}

/// A single-precision number.
#[derive(Copy, Clone, Debug, PartialEq, Eq, Structural)]
pub struct Single {
    pub bits: u32,
}

/// A double-precision number.
#[derive(Copy, Clone, Debug, PartialEq, Eq, Structural)]
pub struct Double {
    pub bits: u64,
}

impl Single {
    /// Whether the pattern stands for a finite number with a clear sign bit.
    pub open spec fn is_number(self) -> bool {
        self.bits < 0x7f80_0000
    }

    /// The number in units of the smallest positive one, two to the power -149.
    pub open spec fn magnitude(self) -> nat {
        let exponent = self.bits as nat / 0x80_0000;
        let fraction = self.bits as nat % 0x80_0000;
        if exponent == 0 {
            fraction
        } else {
            (0x80_0000 + fraction) * pow2((exponent - 1) as nat)
        }
    }

    /// The number with this pattern, unless the pattern stands for a negative
    /// number, an infinity or no number at all.
    pub fn from_bits(bits: u32) -> (r: Option<Single>)
        ensures
            r == (if bits < 0x7f80_0000 {
                Some(Single { bits })
            } else {
                None
            }),
            r matches Some(x) ==> x.is_number(),
    {
        if bits < 0x7f80_0000 {
            Some(Single { bits })
        } else {
            None
        }
    }

    pub fn exceeds(self, other: Single) -> (r: bool)
        requires
            self.is_number(),
            other.is_number(),
        ensures
            r == (self.bits > other.bits),
    {
        self.bits > other.bits
    }

    pub fn max(self, other: Single) -> (r: Single)
        requires
            self.is_number(),
            other.is_number(),
        ensures
            r == self.max_spec(other),
            r.is_number(),
    {
        if other.bits > self.bits {
            other
        } else {
            self
        }
    }

    pub open spec fn max_spec(self, other: Single) -> Single {
        if other.bits > self.bits {
            other
        } else {
            self
        }
    }

    /// The nearest number between `low` and `high`.
    pub fn clamp(self, low: Single, high: Single) -> (r: Single)
        requires
            self.is_number(),
            low.is_number(),
            high.is_number(),
            low.bits <= high.bits,
        ensures
            r == self.clamp_spec(low, high),
            r.is_number(),
    {
        if self.bits < low.bits {
            low
        } else if self.bits > high.bits {
            high
        } else {
            self
        }
    }

    pub open spec fn clamp_spec(self, low: Single, high: Single) -> Single {
        if self.bits < low.bits {
            low
        } else if self.bits > high.bits {
            high
        } else {
            self
        }
    }
}

impl Double {
    /// Whether the pattern stands for a finite number with a clear sign bit.
    pub open spec fn is_number(self) -> bool {
        self.bits < 0x7ff0_0000_0000_0000
    }

    /// The number in units of the smallest positive one, two to the power -1074.
    pub open spec fn magnitude(self) -> nat {
        let exponent = self.bits as nat / 0x10_0000_0000_0000;
        let fraction = self.bits as nat % 0x10_0000_0000_0000;
        if exponent == 0 {
            fraction
        } else {
            (0x10_0000_0000_0000 + fraction) * pow2((exponent - 1) as nat)
        }
    }

    /// The number with this pattern, unless the pattern stands for a negative
    /// number, an infinity or no number at all.
    pub fn from_bits(bits: u64) -> (r: Option<Double>)
        ensures
            r == (if bits < 0x7ff0_0000_0000_0000 {
                Some(Double { bits })
            } else {
                None
            }),
            r matches Some(x) ==> x.is_number(),
    {
        if bits < 0x7ff0_0000_0000_0000 {
            Some(Double { bits })
        } else {
            None
        }
    }

    pub fn exceeds(self, other: Double) -> (r: bool)
        requires
            self.is_number(),
            other.is_number(),
        ensures
            r == (self.bits > other.bits),
    {
        self.bits > other.bits
    }

    pub fn max(self, other: Double) -> (r: Double)
        requires
            self.is_number(),
            other.is_number(),
        ensures
            r == self.max_spec(other),
            r.is_number(),
    {
        if other.bits > self.bits {
            other
        } else {
            self
        }
    }

    pub open spec fn max_spec(self, other: Double) -> Double {
        if other.bits > self.bits {
            other
        } else {
            self
        }
    }
}

/// The greater of two numbers is at least both and one of them; the nearest number
/// within limits is within them, and a number that is within them stays.
pub proof fn lemma_single_choices(a: Single, b: Single, high: Single)
    requires
        b.bits <= high.bits,
    ensures
        a.max_spec(b).bits >= a.bits,
        a.max_spec(b).bits >= b.bits,
        a.max_spec(b) == a || a.max_spec(b) == b,
        b.bits <= a.clamp_spec(b, high).bits <= high.bits,
        b.bits <= a.bits <= high.bits ==> a.clamp_spec(b, high) == a,
        a.bits < b.bits ==> a.clamp_spec(b, high) == b,
        a.bits > high.bits ==> a.clamp_spec(b, high) == high,
{
}

/// The greater of two numbers is at least both and one of them.
pub proof fn lemma_double_choices(a: Double, b: Double)
    ensures
        a.max_spec(b).bits >= a.bits,
        a.max_spec(b).bits >= b.bits,
        a.max_spec(b) == a || a.max_spec(b) == b,
{
}

/// The order of a floating-point layout with `scale` fractions per exponent:
/// a smaller pattern has a smaller value.
proof fn lemma_layout_order(a: nat, b: nat, scale: nat)
    requires
        a < b,
        scale > 0,
    ensures
        layout_value(a, scale) < layout_value(b, scale),
{
    let ea = a / scale;
    let fa = a % scale;
    let eb = b / scale;
    let fb = b % scale;
    vstd::arithmetic::div_mod::lemma_fundamental_div_mod(a as int, scale as int);
    vstd::arithmetic::div_mod::lemma_fundamental_div_mod(b as int, scale as int);
    vstd::arithmetic::div_mod::lemma_div_is_ordered(a as int, b as int, scale as int);
    vstd::arithmetic::div_mod::lemma_mod_bound(a as int, scale as int);
    vstd::arithmetic::div_mod::lemma_mod_bound(b as int, scale as int);
    if ea == eb {
        assert(fa < fb);
        if ea > 0 {
            let p = pow2((ea - 1) as nat);
            lemma_pow2_pos((ea - 1) as nat);
            assert((scale + fa) * p < (scale + fb) * p) by (nonlinear_arith)
                requires
                    fa < fb,
                    p > 0,
            ;
        }
    } else {
        let q = pow2((eb - 1) as nat);
        lemma_pow2_pos((eb - 1) as nat);
        assert((scale + fb) * q >= scale * q) by (nonlinear_arith);
        if ea == 0 {
            assert(scale * q >= scale) by (nonlinear_arith)
                requires
                    q >= 1,
            ;
        } else {
            let p = pow2((ea - 1) as nat);
            lemma_pow2_pos((ea - 1) as nat);
            lemma_pow2_unfold(ea);
            assert(pow2(ea) == 2 * p);
            if ea < eb - 1 {
                lemma_pow2_strictly_increases(ea, (eb - 1) as nat);
            }
            assert((scale + fa) * p < scale * q) by (nonlinear_arith)
                requires
                    fa < scale,
                    2 * p <= q,
                    p > 0,
                    scale > 0,
            ;
        }
    }
}

spec fn layout_value(bits: nat, scale: nat) -> nat {
    if bits / scale == 0 {
        bits % scale
    } else {
        (scale + bits % scale) * pow2((bits / scale - 1) as nat)
    }
}

/// Single-precision patterns are ordered as the numbers they stand for.
pub proof fn lemma_single_order(a: Single, b: Single)
    requires
        a.is_number(),
        b.is_number(),
    ensures
        a.bits < b.bits <==> a.magnitude() < b.magnitude(),
        a.bits == b.bits <==> a.magnitude() == b.magnitude(),
{
    assert(a.magnitude() == layout_value(a.bits as nat, 0x80_0000));
    assert(b.magnitude() == layout_value(b.bits as nat, 0x80_0000));
    if a.bits < b.bits {
        lemma_layout_order(a.bits as nat, b.bits as nat, 0x80_0000);
    }
    if b.bits < a.bits {
        lemma_layout_order(b.bits as nat, a.bits as nat, 0x80_0000);
    }
}

/// Double-precision patterns are ordered as the numbers they stand for.
pub proof fn lemma_double_order(a: Double, b: Double)
    requires
        a.is_number(),
        b.is_number(),
    ensures
        a.bits < b.bits <==> a.magnitude() < b.magnitude(),
        a.bits == b.bits <==> a.magnitude() == b.magnitude(),
{
    assert(a.magnitude() == layout_value(a.bits as nat, 0x10_0000_0000_0000));
    assert(b.magnitude() == layout_value(b.bits as nat, 0x10_0000_0000_0000));
    if a.bits < b.bits {
        lemma_layout_order(a.bits as nat, b.bits as nat, 0x10_0000_0000_0000);
    }
    if b.bits < a.bits {
        lemma_layout_order(b.bits as nat, a.bits as nat, 0x10_0000_0000_0000);
    }
}

} // verus!
