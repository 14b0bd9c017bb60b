//! Real numbers as the bit patterns that hold them.
//!
//! Measured quantities reach the library as IEEE 754 numbers. A number is kept
//! here as its bit pattern, so that the library can tell numbers from holes in
//! the data and can put them in order, by integer arithmetic alone. Arithmetic
//! on the numbers is the business of `crate::math`.

use vstd::arithmetic::power2::pow2;
use vstd::prelude::*;

verus! {

/// 1 in single precision.
pub const ONE: u32 = 0x3f80_0000;

/// 10 in single precision.
pub const TEN: u32 = 0x4120_0000;

/// 1000 in single precision.
pub const THOUSAND: u32 = 0x447a_0000;

/// 0.1 in single precision.
pub const TENTH: u32 = 0x3dcc_cccd;

/// 0.01 in single precision.
pub const CENTI: u32 = 0x3c23_d70a;

/// 0.001 in single precision.
pub const MILLI: u32 = 0x3a83_126f;

/// The square root of 2 in single precision.
pub const SQRT_2: u32 = 0x3fb5_04f3;

/// A single-precision number (IEEE 754 binary32), as its bit pattern.
///
/// `==` on this type compares bit patterns; `lt` and `le` compare numbers.
#[derive(Debug, Clone, Copy, PartialEq, Eq, Structural)]
pub struct Single {
    pub bits: u32,
}

/// A double-precision number (IEEE 754 binary64), as its bit pattern.
///
/// `==` on this type compares bit patterns; `lt` and `le` compare numbers.
#[derive(Debug, Clone, Copy, PartialEq, Eq, Structural)]
pub struct Double {
    pub bits: u64,
}

impl Single {
    /// The bit pattern without its sign bit.
    pub open spec fn magnitude(self) -> int {
        if self.bits >= 0x8000_0000 {
            self.bits - 0x8000_0000
        } else {
            self.bits as int
        }
    }

    /// Neither an infinity nor a NaN.
    pub open spec fn finite(self) -> bool {
        self.magnitude() < 0x7f80_0000
    }

    /// Not a number.
    pub open spec fn nan(self) -> bool {
        self.magnitude() > 0x7f80_0000
    }

    /// Position of the number in the order of all numbers; both zeros sit at 0.
    pub open spec fn rank(self) -> int {
        if self.bits >= 0x8000_0000 {
            -self.magnitude()
        } else {
            self.magnitude()
        }
    }

    /// `self < other`; false as soon as one side is a NaN.
    pub open spec fn below(self, other: Self) -> bool {
        !self.nan() && !other.nan() && self.rank() < other.rank()
    }

    /// `self <= other`; false as soon as one side is a NaN.
    pub open spec fn at_most(self, other: Self) -> bool {
        !self.nan() && !other.nan() && self.rank() <= other.rank()
    }

    /// The value of a finite number, in units of 2^-149.
    pub open spec fn scaled(self) -> int {
        let exponent = self.magnitude() / 0x80_0000;
        let fraction = self.magnitude() % 0x80_0000;
        let size = if exponent == 0 {
            fraction
        } else {
            (fraction + 0x80_0000) * pow2((exponent - 1) as nat)
        };
        if self.bits >= 0x8000_0000 {
            -size
        } else {
            size
        }
    }

    /// The pattern that marks missing data.
    pub fn missing() -> (r: Self)
        ensures
            r.bits == 0x7fc0_0000,
            r.nan(),
    {
        Single { bits: 0x7fc0_0000 }
    }

    /// Positive infinity.
    pub fn infinity() -> (r: Self)
        ensures
            r.bits == 0x7f80_0000,
            !r.nan() && !r.finite(),
    {
        Single { bits: 0x7f80_0000 }
    }

    /// Negative infinity.
    pub fn neg_infinity() -> (r: Self)
        ensures
            r.bits == 0xff80_0000,
            !r.nan() && !r.finite(),
    {
        Single { bits: 0xff80_0000 }
    }

    /// Positive zero.
    pub fn zero() -> (r: Self)
        ensures
            r.bits == 0,
            r.finite(),
    {
        Single { bits: 0 }
    }

    fn abs_bits(&self) -> (r: u32)
        ensures
            r == self.magnitude(),
    {
        if self.bits >= 0x8000_0000 {
            self.bits - 0x8000_0000
        } else {
            self.bits
        }
    }

    pub fn is_finite(&self) -> (r: bool)
        ensures
            r == self.finite(),
    {
        self.abs_bits() < 0x7f80_0000
    }

    pub fn is_nan(&self) -> (r: bool)
        ensures
            r == self.nan(),
    {
        self.abs_bits() > 0x7f80_0000
    }

    /// Position of the number in the order of all numbers.
    pub fn order(&self) -> (r: i64)
        ensures
            r == self.rank(),
            -0x8000_0000 < r < 0x8000_0000,
    {
        if self.bits >= 0x8000_0000 {
            -(self.abs_bits() as i64)
        } else {
            self.bits as i64
        }
    }

    pub fn lt(&self, other: &Self) -> (r: bool)
        ensures
            r == self.below(*other),
    {
        !self.is_nan() && !other.is_nan() && self.order() < other.order()
    }

    pub fn le(&self, other: &Self) -> (r: bool)
        ensures
            r == self.at_most(*other),
    {
        !self.is_nan() && !other.is_nan() && self.order() <= other.order()
    }
}

impl Double {
    /// The bit pattern without its sign bit.
    pub open spec fn magnitude(self) -> int {
        if self.bits >= 0x8000_0000_0000_0000 {
            self.bits - 0x8000_0000_0000_0000
        } else {
            self.bits as int
        }
    }

    /// Neither an infinity nor a NaN.
    pub open spec fn finite(self) -> bool {
        self.magnitude() < 0x7ff0_0000_0000_0000
    }

    /// Not a number.
    pub open spec fn nan(self) -> bool {
        self.magnitude() > 0x7ff0_0000_0000_0000
    }

    /// Position of the number in the order of all numbers; both zeros sit at 0.
    pub open spec fn rank(self) -> int {
        if self.bits >= 0x8000_0000_0000_0000 {
            -self.magnitude()
        } else {
            self.magnitude()
        }
    }

    /// `self < other`; false as soon as one side is a NaN.
    pub open spec fn below(self, other: Self) -> bool {
        !self.nan() && !other.nan() && self.rank() < other.rank()
    }

    /// `self <= other`; false as soon as one side is a NaN.
    pub open spec fn at_most(self, other: Self) -> bool {
        !self.nan() && !other.nan() && self.rank() <= other.rank()
    }

    /// The value of a finite number, in units of 2^-1074.
    pub open spec fn scaled(self) -> int {
        let exponent = self.magnitude() / 0x10_0000_0000_0000;
        let fraction = self.magnitude() % 0x10_0000_0000_0000;
        let size = if exponent == 0 {
            fraction
        } else {
            (fraction + 0x10_0000_0000_0000) * pow2((exponent - 1) as nat)
        };
        if self.bits >= 0x8000_0000_0000_0000 {
            -size
        } else {
            size
        }
    }

    fn abs_bits(&self) -> (r: u64)
        ensures
            r == self.magnitude(),
    {
        if self.bits >= 0x8000_0000_0000_0000 {
            self.bits - 0x8000_0000_0000_0000
        } else {
            self.bits
        }
    }

    pub fn is_finite(&self) -> (r: bool)
        ensures
            r == self.finite(),
    {
        self.abs_bits() < 0x7ff0_0000_0000_0000
    }

    pub fn is_nan(&self) -> (r: bool)
        ensures
            r == self.nan(),
    {
        self.abs_bits() > 0x7ff0_0000_0000_0000
    }

    fn order(&self) -> (r: i128)
        ensures
            r == self.rank(),
    {
        if self.bits >= 0x8000_0000_0000_0000 {
            -(self.abs_bits() as i128)
        } else {
            self.bits as i128
        }
    }

    pub fn lt(&self, other: &Self) -> (r: bool)
        ensures
            r == self.below(*other),
    {
        !self.is_nan() && !other.is_nan() && self.order() < other.order()
    }

    pub fn le(&self, other: &Self) -> (r: bool)
        ensures
            r == self.at_most(*other),
    {
        !self.is_nan() && !other.is_nan() && self.order() <= other.order()
    }
}

impl Single {
    pub open spec fn spec_neg(self) -> Self {
        if self.bits >= 0x8000_0000 {
            Single { bits: (self.bits - 0x8000_0000) as u32 }
        } else {
            Single { bits: (self.bits + 0x8000_0000) as u32 }
        }
    }

    /// The number with the other sign.
    #[verifier::when_used_as_spec(spec_neg)]
    pub fn neg(self) -> (r: Self)
        ensures
            r == self.spec_neg(),
    {
        if self.bits >= 0x8000_0000 {
            Single { bits: self.bits - 0x8000_0000 }
        } else {
            Single { bits: self.bits + 0x8000_0000 }
        }
    }

    pub open spec fn spec_abs(self) -> Self {
        if self.bits >= 0x8000_0000 {
            self.spec_neg()
        } else {
            self
        }
    }

    /// The number without its sign.
    #[verifier::when_used_as_spec(spec_abs)]
    pub fn abs(self) -> (r: Self)
        ensures
            r == self.spec_abs(),
    {
        if self.bits >= 0x8000_0000 {
            self.neg()
        } else {
            self
        }
    }

    pub open spec fn spec_max(self, other: Self) -> Self {
        if self.nan() {
            other
        } else if !other.nan() && self.rank() < other.rank() {
            other
        } else {
            self
        }
    }

    /// The larger number; the other one if one is a NaN.
    #[verifier::when_used_as_spec(spec_max)]
    pub fn max(self, other: Self) -> (r: Self)
        ensures
            r == self.spec_max(other),
    {
        if self.is_nan() {
            other
        } else if self.lt(&other) {
            other
        } else {
            self
        }
    }

    pub open spec fn spec_min(self, other: Self) -> Self {
        if self.nan() {
            other
        } else if !other.nan() && other.rank() < self.rank() {
            other
        } else {
            self
        }
    }

    /// The smaller number; the other one if one is a NaN.
    #[verifier::when_used_as_spec(spec_min)]
    pub fn min(self, other: Self) -> (r: Self)
        ensures
            r == self.spec_min(other),
    {
        if self.is_nan() {
            other
        } else if other.lt(&self) {
            other
        } else {
            self
        }
    }

    pub open spec fn spec_clamp(self, lo: Self, hi: Self) -> Self {
        if self.below(lo) {
            lo
        } else if hi.below(self) {
            hi
        } else {
            self
        }
    }

    /// The number, or the bound that it lies beyond; a NaN stays.
    #[verifier::when_used_as_spec(spec_clamp)]
    pub fn clamp(self, lo: Self, hi: Self) -> (r: Self)
        requires
            lo.at_most(hi),
        ensures
            r == self.spec_clamp(lo, hi),
    {
        if self.lt(&lo) {
            lo
        } else if hi.lt(&self) {
            hi
        } else {
            self
        }
    }
}

impl Double {
    pub open spec fn spec_neg(self) -> Self {
        if self.bits >= 0x8000_0000_0000_0000 {
            Double { bits: (self.bits - 0x8000_0000_0000_0000) as u64 }
        } else {
            Double { bits: (self.bits + 0x8000_0000_0000_0000) as u64 }
        }
    }

    /// The number with the other sign.
    #[verifier::when_used_as_spec(spec_neg)]
    pub fn neg(self) -> (r: Self)
        ensures
            r == self.spec_neg(),
    {
        if self.bits >= 0x8000_0000_0000_0000 {
            Double { bits: self.bits - 0x8000_0000_0000_0000 }
        } else {
            Double { bits: self.bits + 0x8000_0000_0000_0000 }
        }
    }

    pub open spec fn spec_abs(self) -> Self {
        if self.bits >= 0x8000_0000_0000_0000 {
            self.spec_neg()
        } else {
            self
        }
    }

    /// The number without its sign.
    #[verifier::when_used_as_spec(spec_abs)]
    pub fn abs(self) -> (r: Self)
        ensures
            r == self.spec_abs(),
    {
        if self.bits >= 0x8000_0000_0000_0000 {
            self.neg()
        } else {
            self
        }
    }

    pub open spec fn spec_max(self, other: Self) -> Self {
        if self.nan() {
            other
        } else if !other.nan() && self.rank() < other.rank() {
            other
        } else {
            self
        }
    }

    /// The larger number; the other one if one is a NaN.
    #[verifier::when_used_as_spec(spec_max)]
    pub fn max(self, other: Self) -> (r: Self)
        ensures
            r == self.spec_max(other),
    {
        if self.is_nan() {
            other
        } else if self.lt(&other) {
            other
        } else {
            self
        }
    }

    pub open spec fn spec_min(self, other: Self) -> Self {
        if self.nan() {
            other
        } else if !other.nan() && other.rank() < self.rank() {
            other
        } else {
            self
        }
    }

    /// The smaller number; the other one if one is a NaN.
    #[verifier::when_used_as_spec(spec_min)]
    pub fn min(self, other: Self) -> (r: Self)
        ensures
            r == self.spec_min(other),
    {
        if self.is_nan() {
            other
        } else if other.lt(&self) {
            other
        } else {
            self
        }
    }

    pub open spec fn spec_clamp(self, lo: Self, hi: Self) -> Self {
        if self.below(lo) {
            lo
        } else if hi.below(self) {
            hi
        } else {
            self
        }
    }

    /// The number, or the bound that it lies beyond; a NaN stays.
    #[verifier::when_used_as_spec(spec_clamp)]
    pub fn clamp(self, lo: Self, hi: Self) -> (r: Self)
        requires
            lo.at_most(hi),
        ensures
            r == self.spec_clamp(lo, hi),
    {
        if self.lt(&lo) {
            lo
        } else if hi.lt(&self) {
            hi
        } else {
            self
        }
    }
}

/// The size that a magnitude stands for, with `field` the first number whose
/// exponent field is not zero.
spec fn size_of(magnitude: int, field: int) -> int {
    if magnitude / field == 0 {
        magnitude % field
    } else {
        (magnitude % field + field) * pow2((magnitude / field - 1) as nat)
    }
}

/// A magnitude one up stands for a larger size.
proof fn lemma_size_grows_by_step(m: int, field: int)
    requires
        0 <= m,
        field > 0,
    ensures
        0 <= size_of(m, field) < size_of(m + 1, field),
{
    let e = m / field;
    let f = m % field;
    vstd::arithmetic::div_mod::lemma_fundamental_div_mod(m, field);
    assert(0 <= f < field && e >= 0) by (nonlinear_arith)
        requires
            field > 0,
            m >= 0,
            e == m / field,
            f == m % field,
    ;
    if f + 1 < field {
        vstd::arithmetic::div_mod::lemma_fundamental_div_mod_converse(m + 1, field, e, f + 1);
        if e > 0 {
            let p = pow2((e - 1) as nat) as int;
            vstd::arithmetic::power2::lemma_pow2_pos((e - 1) as nat);
            assert(0 <= (f + field) * p < (f + 1 + field) * p) by (nonlinear_arith)
                requires
                    p > 0,
                    f >= 0,
                    field > 0,
            ;
        }
    } else {
        assert(m + 1 == (e + 1) * field + 0) by (nonlinear_arith)
            requires
                m == field * e + f,
                f + 1 == field,
        ;
        vstd::arithmetic::div_mod::lemma_fundamental_div_mod_converse(m + 1, field, e + 1, 0);
        if e > 0 {
            let p = pow2((e - 1) as nat) as int;
            let q = pow2(e as nat) as int;
            vstd::arithmetic::power2::lemma_pow2_pos((e - 1) as nat);
            vstd::arithmetic::power2::lemma_pow2_unfold(e as nat);
            assert(0 <= (f + field) * p < (0 + field) * q) by (nonlinear_arith)
                requires
                    p > 0,
                    q == 2 * p,
                    f + 1 == field,
                    f >= 0,
            ;
        } else {
            vstd::arithmetic::power2::lemma2_to64();
            assert((0 + field) * 1 == field);
        }
    }
}

proof fn lemma_size_grows(a: int, b: int, field: int)
    requires
        0 <= a < b,
        field > 0,
    ensures
        0 <= size_of(a, field) < size_of(b, field),
    decreases b - a,
{
    lemma_size_grows_by_step(b - 1, field);
    if a < b - 1 {
        lemma_size_grows(a, b - 1, field);
    }
}

/// The order of bit patterns is the order of the numbers that they hold: of two
/// finite numbers `lt` picks out the one with the smaller value.
pub proof fn single_order_is_value_order(a: Single, b: Single)
    requires
        a.finite(),
        b.finite(),
    ensures
        a.below(b) <==> a.scaled() < b.scaled(),
        a.at_most(b) <==> a.scaled() <= b.scaled(),
{
    let (m, n) = (a.magnitude(), b.magnitude());
    assert(size_of(0, 0x80_0000) == 0);
    if m > 0 {
        lemma_size_grows(0, m, 0x80_0000);
    }
    if n > 0 {
        lemma_size_grows(0, n, 0x80_0000);
    }
    if m < n {
        lemma_size_grows(m, n, 0x80_0000);
    } else if n < m {
        lemma_size_grows(n, m, 0x80_0000);
    }
}

/// The order of bit patterns is the order of the numbers that they hold: of two
/// finite numbers `lt` picks out the one with the smaller value.
pub proof fn double_order_is_value_order(a: Double, b: Double)
    requires
        a.finite(),
        b.finite(),
    ensures
        a.below(b) <==> a.scaled() < b.scaled(),
        a.at_most(b) <==> a.scaled() <= b.scaled(),
{
    let (m, n) = (a.magnitude(), b.magnitude());
    assert(size_of(0, 0x10_0000_0000_0000) == 0);
    if m > 0 {
        lemma_size_grows(0, m, 0x10_0000_0000_0000);
    }
    if n > 0 {
        lemma_size_grows(0, n, 0x10_0000_0000_0000);
    }
    if m < n {
        lemma_size_grows(m, n, 0x10_0000_0000_0000);
    } else if n < m {
        lemma_size_grows(n, m, 0x10_0000_0000_0000);
    }
}

} // verus!
