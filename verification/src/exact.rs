//! The numbers that bit patterns stand for, and what rounding keeps of exact
//! arithmetic.

use crate::math::{
    ceil, floor, minus, over, plus, rem, rem_euclid, round, single, sqrt, square, times, to_int, Math,
};
use crate::scalar::{single_order_is_value_order, Single};
use vstd::arithmetic::power2::{lemma2_to64, lemma_pow2_adds, lemma_pow2_pos, lemma_pow2_unfold, pow2};
use vstd::prelude::*;

verus! {

/// The number that a finite bit pattern stands for.
pub open spec fn value(x: Single) -> real {
    (x.scaled() as real) / (pow2(149) as real)
}

/// Whether `m` rounds exact results by `rnd`, which gives the rank of the number
/// that stands for a result: rounding keeps order, treats both signs alike and
/// leaves alone what needs none.
pub open spec fn rounds<M: Math>(m: &M, rnd: spec_fn(real) -> int) -> bool {
    &&& forall|x: real, y: real| x <= y ==> #[trigger] rnd(x) <= #[trigger] rnd(y)
    &&& forall|x: real| #[trigger] rnd(-x) == -rnd(x)
    &&& forall|c: Single| c.finite() ==> rnd(#[trigger] value(c)) == c.rank()
    &&& forall|a: Single, b: Single|
        a.finite() && b.finite() ==> stands_for(#[trigger] plus(m, a, b), rnd(value(a) + value(b)))
    &&& forall|a: Single, b: Single|
        a.finite() && b.finite() ==> stands_for(#[trigger] minus(m, a, b), rnd(value(a) - value(b)))
    &&& forall|a: Single, b: Single|
        a.finite() && b.finite() ==> stands_for(#[trigger] times(m, a, b), rnd(value(a) * value(b)))
    &&& forall|a: Single, b: Single|
        a.finite() && b.finite() && value(b) != 0real ==> stands_for(
            #[trigger] over(m, a, b),
            rnd(value(a) / value(b)),
        )
    &&& forall|i: i128| stands_for(#[trigger] single(m, i), rnd(i as real))
    &&& forall|i: i128|
        -0x100_0000 <= i <= 0x100_0000 ==> (#[trigger] single(m, i)).finite() && value(
            single(m, i),
        ) == i as real
    &&& forall|a: Single, root: real|
        a.finite() && 0real <= root && root * root == value(a) ==> stands_for(
            #[trigger] sqrt(m, a),
            #[trigger] rnd(root),
        )
    &&& forall|a: Single, b: Single|
        a.finite() && b.finite() && 0real <= value(a) <= value(b) ==> (#[trigger] sqrt(
            m,
            a,
        )).at_most(#[trigger] sqrt(m, b))
}

/// Whether `x` is a number, at this place in the order of all numbers.
pub open spec fn stands_for(x: Single, rank: int) -> bool {
    !x.nan() && x.rank() == rank
}

/// Whether `a` is `k` times `b`, and the rest `r`.
pub open spec fn is_rest(a: Single, b: Single, k: int, r: real) -> bool {
    value(a) == (k as real) * value(b) + r && 0real <= r < value(b)
}

/// Whether `m` gives the remainder that is never negative, rounded.
pub open spec fn wraps<M: Math>(m: &M, rnd: spec_fn(real) -> int) -> bool {
    forall|a: Single, b: Single, k: int, r: real|
        a.finite() && b.finite() && #[trigger] is_rest(a, b, k, r) ==> stands_for(
            rem_euclid(m, a, b),
            rnd(r),
        )
}

/// Whether `m` gives the remainder of what is not negative, rounded.
pub open spec fn leaves<M: Math>(m: &M, rnd: spec_fn(real) -> int) -> bool {
    forall|a: Single, b: Single, k: int, r: real|
        a.finite() && b.finite() && 0real <= value(a) && #[trigger] is_rest(a, b, k, r)
            ==> stands_for(rem(m, a, b), rnd(r))
}

/// Whether whole parts are taken of numbers, toward zero.
pub open spec fn truncates<M: Math>(m: &M) -> bool {
    forall|a: Single|
        a.finite() && 0real <= value(a) <= 1_000_000_000real ==> {
            let i = #[trigger] to_int(m, a);
            0 <= i && i as real <= value(a) && value(a) < (i as real) + 1real
        }
}

/// Whether `k` is the least whole number that is not below `a`.
pub open spec fn is_ceil(a: Single, k: int) -> bool {
    k as real - 1real < value(a) <= k as real
}

/// Whether `m` rounds up.
pub open spec fn steps_up<M: Math>(m: &M) -> bool {
    forall|a: Single, k: int|
        a.finite() && #[trigger] is_ceil(a, k) ==> ceil(m, a).finite() && value(ceil(m, a))
            == k as real
}

/// Whether `m` rounds squares by `rnd`.
pub open spec fn squares<M: Math>(m: &M, rnd: spec_fn(real) -> int) -> bool {
    forall|a: Single|
        a.finite() ==> stands_for(#[trigger] square(m, a), rnd(value(a) * value(a)))
}

/// Whether `k` is the greatest whole number that is not above `a`.
pub open spec fn is_floor(a: Single, k: int) -> bool {
    k as real <= value(a) < k as real + 1real
}

/// Whether `k` is the whole number nearest to `a`, the upper one halfway.
pub open spec fn is_nearest(a: Single, k: int) -> bool {
    k as real - 1real / 2real <= value(a) < k as real + 1real / 2real
}

/// Whether a number is whole.
pub open spec fn is_integer(a: Single, k: int) -> bool {
    value(a) == k as real
}

/// Whether `m` rounds down, rounds to the nearest whole number (of what is not
/// negative) and turns whole numbers into integers.
pub open spec fn steps<M: Math>(m: &M) -> bool {
    &&& forall|a: Single, k: int|
        a.finite() && #[trigger] is_floor(a, k) ==> floor(m, a).finite() && value(floor(m, a))
            == k as real
    &&& forall|a: Single, k: int|
        a.finite() && 0real <= value(a) && #[trigger] is_nearest(a, k) ==> round(m, a).finite()
            && value(round(m, a)) == k as real
    &&& forall|a: Single, k: int|
        a.finite() && -0x8000_0000 <= k < 0x8000_0000 && #[trigger] is_integer(a, k) ==> to_int(
            m,
            a,
        ) == k
}

/// Finite numbers are in the order of their bit patterns.
pub proof fn values_are_in_order(a: Single, b: Single)
    requires
        a.finite(),
        b.finite(),
    ensures
        a.at_most(b) <==> value(a) <= value(b),
        a.below(b) <==> value(a) < value(b),
        a.rank() <= b.rank() <==> value(a) <= value(b),
        a.rank() == b.rank() <==> value(a) == value(b),
{
    single_order_is_value_order(a, b);
    lemma_pow2_pos(149);
    let u = pow2(149) as real;
    let (x, y) = (a.scaled() as real, b.scaled() as real);
    assert(a.scaled() <= b.scaled() <==> x <= y);
    assert(x <= y <==> x / u <= y / u) by (nonlinear_arith)
        requires
            u > 0real,
    ;
    single_order_is_value_order(b, a);
    assert(y <= x <==> y / u <= x / u) by (nonlinear_arith)
        requires
            u > 0real,
    ;
}

/// Changing the sign of a number changes the sign of its value.
pub proof fn negation_is_exact(x: Single)
    ensures
        value(x.neg()) == -value(x),
        x.neg().rank() == -x.rank(),
        x.neg().finite() == x.finite(),
        x.neg().nan() == x.nan(),
{
    assert(x.neg().magnitude() == x.magnitude());
    assert(x.neg().scaled() == -x.scaled());
    lemma_pow2_pos(149);
    let u = pow2(149) as real;
    let v = x.scaled() as real;
    assert((-v) / u == -(v / u)) by (nonlinear_arith)
        requires
            u > 0real,
    ;
}

/// Dropping the sign of a number drops the sign of its value.
pub proof fn size_is_exact(x: Single)
    requires
        x.finite(),
    ensures
        x.abs().finite(),
        value(x.abs()) == if value(x) < 0real {
            -value(x)
        } else {
            value(x)
        },
        x.abs().rank() == if x.rank() < 0 {
            -x.rank()
        } else {
            x.rank()
        },
{
    negation_is_exact(x);
    zero_is_nothing();
    values_are_in_order(x, Single { bits: 0 });
    values_are_in_order(x.neg(), Single { bits: 0 });
}

/// The pattern of all zeros stands for 0.
pub proof fn zero_is_nothing()
    ensures
        value(Single { bits: 0 }) == 0real,
        (Single { bits: 0 }).rank() == 0,
        (Single { bits: 0 }).finite(),
{
    lemma_pow2_pos(149);
    assert((Single { bits: 0 }).scaled() == 0);
    let u = pow2(149) as real;
    assert(0real / u == 0real) by (nonlinear_arith)
        requires
            u > 0real,
    ;
}

/// What rounding does to a result, as against the finite number `c`.
pub proof fn rounding_keeps_sides<M: Math>(
    m: &M,
    rnd: spec_fn(real) -> int,
    r: Single,
    v: real,
    c: Single,
)
    requires
        rounds(m, rnd),
        stands_for(r, rnd(v)),
        c.finite(),
    ensures
        v <= value(c) ==> r.at_most(c) && r.rank() <= c.rank(),
        value(c) <= v ==> c.at_most(r) && c.rank() <= r.rank(),
        v == value(c) ==> r.finite() && value(r) == v,
{
    assert(rnd(value(c)) == c.rank());
    if v == value(c) {
        assert(r.rank() == c.rank());
        values_are_in_order(r, c);
    }
}

/// A result between two finite numbers is finite, and its value is between them.
pub proof fn rounding_stays_between<M: Math>(
    m: &M,
    rnd: spec_fn(real) -> int,
    r: Single,
    v: real,
    lo: Single,
    hi: Single,
)
    requires
        rounds(m, rnd),
        stands_for(r, rnd(v)),
        lo.finite(),
        hi.finite(),
        value(lo) <= v <= value(hi),
    ensures
        r.finite(),
        value(lo) <= value(r) <= value(hi),
{
    rounding_keeps_sides(m, rnd, r, v, lo);
    rounding_keeps_sides(m, rnd, r, v, hi);
    values_are_in_order(lo, r);
    values_are_in_order(r, hi);
}

/// Larger results are rounded to larger numbers.
pub proof fn rounding_keeps_order<M: Math>(
    m: &M,
    rnd: spec_fn(real) -> int,
    r: Single,
    v: real,
    q: Single,
    w: real,
)
    requires
        rounds(m, rnd),
        stands_for(r, rnd(v)),
        stands_for(q, rnd(w)),
        v <= w,
    ensures
        r.at_most(q),
        r.rank() <= q.rank(),
{
}

/// Value of a positive number from its exponent `e` and its digits.
pub proof fn digits_give_the_value(x: Single, e: int, digits: int)
    requires
        1 <= e <= 150,
        0x80_0000 <= digits < 0x100_0000,
        x.bits == e * 0x80_0000 + digits - 0x80_0000,
    ensures
        x.finite(),
        value(x) * (pow2((150 - e) as nat) as real) == digits as real,
{
    assert(x.magnitude() / 0x80_0000 == e);
    assert(x.magnitude() % 0x80_0000 == digits - 0x80_0000);
    let p = pow2((e - 1) as nat);
    let q = pow2((150 - e) as nat);
    lemma_pow2_pos((e - 1) as nat);
    lemma_pow2_pos((150 - e) as nat);
    lemma_pow2_pos(149);
    lemma_pow2_adds((e - 1) as nat, (150 - e) as nat);
    assert(x.scaled() == digits * p);
    assert(pow2(149) == p * q);
    let (d, a, b) = (digits as real, p as real, q as real);
    assert((digits * p) as real == d * a) by (nonlinear_arith)
        requires
            d == digits as real,
            a == p as real,
    ;
    assert((p * q) as real == a * b) by (nonlinear_arith)
        requires
            b == q as real,
            a == p as real,
    ;
    assert((d * a) / (a * b) * b == d) by (nonlinear_arith)
        requires
            a > 0real,
            b > 0real,
    ;
}

/// Bounds on the value of a positive number, from its exponent `e`, its digits,
/// and the power of two that the digits are divided by.
pub proof fn digits_bound_the_value(x: Single, e: int, digits: int, by: int, lo: real, hi: real)
    requires
        1 <= e <= 150,
        0x80_0000 <= digits < 0x100_0000,
        x.bits == e * 0x80_0000 + digits - 0x80_0000,
        by == pow2((150 - e) as nat),
        lo * (by as real) <= digits as real <= hi * (by as real),
    ensures
        x.finite(),
        lo <= value(x) <= hi,
{
    digits_give_the_value(x, e, digits);
    lemma_pow2_pos((150 - e) as nat);
    let (v, b, d) = (value(x), by as real, digits as real);
    assert(lo <= v <= hi) by (nonlinear_arith)
        requires
            b > 0real,
            v * b == d,
            lo * b <= d <= hi * b,
    ;
}

/// The larger and the smaller of two finite numbers have the larger and the
/// smaller value.
pub proof fn picks_are_exact(a: Single, b: Single)
    requires
        a.finite(),
        b.finite(),
    ensures
        a.max(b).finite(),
        a.min(b).finite(),
        value(a.max(b)) == if value(a) < value(b) {
            value(b)
        } else {
            value(a)
        },
        value(a.min(b)) == if value(a) < value(b) {
            value(a)
        } else {
            value(b)
        },
{
    values_are_in_order(a, b);
    values_are_in_order(b, a);
}

/// A sum of two finite numbers that another one bounds.
pub proof fn sums_stay_within<M: Math>(
    m: &M,
    rnd: spec_fn(real) -> int,
    a: Single,
    b: Single,
    bound: Single,
)
    requires
        rounds(m, rnd),
        a.finite(),
        b.finite(),
        bound.finite(),
        -value(bound) <= value(a) + value(b) <= value(bound),
    ensures
        plus(m, a, b).finite(),
        -value(bound) <= value(plus(m, a, b)) <= value(bound),
{
    negation_is_exact(bound);
    rounding_stays_between(m, rnd, plus(m, a, b), value(a) + value(b), bound.neg(), bound);
}

/// A difference of two finite numbers that another one bounds.
pub proof fn differences_stay_within<M: Math>(
    m: &M,
    rnd: spec_fn(real) -> int,
    a: Single,
    b: Single,
    bound: Single,
)
    requires
        rounds(m, rnd),
        a.finite(),
        b.finite(),
        bound.finite(),
        -value(bound) <= value(a) - value(b) <= value(bound),
    ensures
        minus(m, a, b).finite(),
        -value(bound) <= value(minus(m, a, b)) <= value(bound),
{
    negation_is_exact(bound);
    rounding_stays_between(m, rnd, minus(m, a, b), value(a) - value(b), bound.neg(), bound);
}

/// Powers of two that bound what terrain comes to.
pub proof fn powers_of_two()
    ensures
        (Single { bits: 0x3f80_0000 }).finite() && value(Single { bits: 0x3f80_0000 }) == 1real,
        (Single { bits: 0x3f00_0000 }).finite() && value(Single { bits: 0x3f00_0000 }) == 1real
            / 2real,
        (Single { bits: 0x4000_0000 }).finite() && value(Single { bits: 0x4000_0000 }) == 2real,
        (Single { bits: 0x4100_0000 }).finite() && value(Single { bits: 0x4100_0000 }) == 8real,
        (Single { bits: 0x4780_0000 }).finite() && value(Single { bits: 0x4780_0000 })
            == 65_536real,
        (Single { bits: 0x4800_0000 }).finite() && value(Single { bits: 0x4800_0000 })
            == 131_072real,
        (Single { bits: 0x4880_0000 }).finite() && value(Single { bits: 0x4880_0000 })
            == 262_144real,
        (Single { bits: 0x4900_0000 }).finite() && value(Single { bits: 0x4900_0000 })
            == 524_288real,
        (Single { bits: 0x4980_0000 }).finite() && value(Single { bits: 0x4980_0000 })
            == 1_048_576real,
        (Single { bits: 0x4a00_0000 }).finite() && value(Single { bits: 0x4a00_0000 })
            == 2_097_152real,
        (Single { bits: 0x4a80_0000 }).finite() && value(Single { bits: 0x4a80_0000 })
            == 4_194_304real,
        (Single { bits: 0x4b00_0000 }).finite() && value(Single { bits: 0x4b00_0000 })
            == 8_388_608real,
{
    lemma2_to64();
    let d = 0x80_0000int;
    digits_bound_the_value(Single { bits: 0x3f80_0000 }, 127, d, 0x80_0000, 1real, 1real);
    digits_bound_the_value(
        Single { bits: 0x3f00_0000 },
        126,
        d,
        0x100_0000,
        1real / 2real,
        1real / 2real,
    );
    digits_bound_the_value(Single { bits: 0x4000_0000 }, 128, d, 0x40_0000, 2real, 2real);
    digits_bound_the_value(Single { bits: 0x4100_0000 }, 130, d, 0x10_0000, 8real, 8real);
    digits_bound_the_value(Single { bits: 0x4780_0000 }, 143, d, 128, 65_536real, 65_536real);
    digits_bound_the_value(Single { bits: 0x4800_0000 }, 144, d, 64, 131_072real, 131_072real);
    digits_bound_the_value(Single { bits: 0x4880_0000 }, 145, d, 32, 262_144real, 262_144real);
    digits_bound_the_value(Single { bits: 0x4900_0000 }, 146, d, 16, 524_288real, 524_288real);
    digits_bound_the_value(Single { bits: 0x4980_0000 }, 147, d, 8, 1_048_576real, 1_048_576real);
    digits_bound_the_value(Single { bits: 0x4a00_0000 }, 148, d, 4, 2_097_152real, 2_097_152real);
    digits_bound_the_value(Single { bits: 0x4a80_0000 }, 149, d, 2, 4_194_304real, 4_194_304real);
    digits_bound_the_value(Single { bits: 0x4b00_0000 }, 150, d, 1, 8_388_608real, 8_388_608real);
}

/// Value of a large number, from its exponent `e`, its digits, and the power of
/// two that the digits are multiplied by.
pub proof fn digits_give_the_large_value(x: Single, e: int, digits: int, by: int, v: int)
    requires
        150 <= e <= 254,
        0x80_0000 <= digits < 0x100_0000,
        x.bits == e * 0x80_0000 + digits - 0x80_0000,
        by == pow2((e - 150) as nat),
        v == digits * by,
    ensures
        x.finite(),
        value(x) == v as real,
{
    assert(x.magnitude() / 0x80_0000 == e);
    assert(x.magnitude() % 0x80_0000 == digits - 0x80_0000);
    let u = pow2(149);
    lemma_pow2_pos(149);
    lemma_pow2_adds(149, (e - 150) as nat);
    assert(x.scaled() == digits * (u * by));
    assert(digits * (u * by) == v * u) by (nonlinear_arith)
        requires
            v == digits * by,
    ;
    let (a, b) = (v as real, u as real);
    assert((v * u) as real == a * b) by (nonlinear_arith)
        requires
            a == v as real,
            b == u as real,
    ;
    assert((a * b) / b == a) by (nonlinear_arith)
        requires
            b > 0real,
    ;
}

/// Two to the power of 31.
pub proof fn two_to_the_31st()
    ensures
        (Single { bits: 0x4f00_0000 }).finite(),
        value(Single { bits: 0x4f00_0000 }) == 2_147_483_648real,
{
    lemma2_to64();
    digits_give_the_large_value(Single { bits: 0x4f00_0000 }, 158, 0x80_0000, 256, 2_147_483_648);
}

/// 2^28 as a bit pattern.
pub proof fn two_to_the_28th()
    ensures
        (Single { bits: 0x4d80_0000 }).finite(),
        value(Single { bits: 0x4d80_0000 }) == 268_435_456real,
{
    lemma2_to64();
    digits_give_the_large_value(Single { bits: 0x4d80_0000 }, 155, 0x80_0000, 32, 268_435_456);
}

/// A product with a number that is not negative grows with the other one.
pub proof fn products_grow<M: Math>(
    m: &M,
    rnd: spec_fn(real) -> int,
    a: Single,
    b: Single,
    c: Single,
)
    requires
        rounds(m, rnd),
        a.finite() && b.finite() && c.finite(),
        value(a) <= value(b),
        0real <= value(c),
    ensures
        times(m, a, c).at_most(times(m, b, c)),
        times(m, c, a).at_most(times(m, c, b)),
{
    let (x, y, z) = (value(a), value(b), value(c));
    assert(x * z <= y * z && z * x <= z * y) by (nonlinear_arith)
        requires
            x <= y,
            0real <= z,
    ;
    rounding_keeps_order(m, rnd, times(m, a, c), x * z, times(m, b, c), y * z);
    rounding_keeps_order(m, rnd, times(m, c, a), z * x, times(m, c, b), z * y);
}

/// A quotient by a positive number grows with what is divided, and falls with
/// what it is divided by where that is not negative.
pub proof fn quotients_grow<M: Math>(
    m: &M,
    rnd: spec_fn(real) -> int,
    a: Single,
    b: Single,
    c: Single,
    d: Single,
)
    requires
        rounds(m, rnd),
        a.finite() && b.finite() && c.finite() && d.finite(),
        value(a) <= value(b),
        0real < value(d) <= value(c),
        value(c) == value(d) || 0real <= value(b),
    ensures
        over(m, a, c).at_most(over(m, b, d)),
{
    let (x, y, z, w) = (value(a), value(b), value(c), value(d));
    if z == w {
        assert(x / z <= y / w) by (nonlinear_arith)
            requires
                x <= y,
                0real < w,
                z == w,
        ;
    } else {
        assert(x / z <= y / w) by (nonlinear_arith)
            requires
                x <= y,
                0real <= y,
                0real < w <= z,
        ;
    }
    rounding_keeps_order(m, rnd, over(m, a, c), x / z, over(m, b, d), y / w);
}

/// Roots lie where squares say: a root is at least each number whose square is no
/// larger, and at most each whose square is no smaller.
pub proof fn roots_keep_sides<M: Math>(
    m: &M,
    rnd: spec_fn(real) -> int,
    a: Single,
    c: Single,
    square: Single,
)
    requires
        rounds(m, rnd),
        a.finite() && c.finite() && square.finite(),
        0real <= value(c),
        0real <= value(a),
        value(square) == value(c) * value(c),
    ensures
        value(square) <= value(a) ==> c.at_most(sqrt(m, a)),
        value(a) <= value(square) ==> sqrt(m, a).at_most(c),
        value(a) == value(square) ==> sqrt(m, a).finite() && value(sqrt(m, a)) == value(c),
{
    let r = sqrt(m, square);
    assert(stands_for(r, rnd(value(c))));
    rounding_keeps_sides(m, rnd, r, value(c), c);
    assert(0real <= value(square)) by (nonlinear_arith)
        requires
            value(square) == value(c) * value(c),
    ;
    if value(a) == value(square) {
        assert(stands_for(sqrt(m, a), rnd(value(c))));
        rounding_keeps_sides(m, rnd, sqrt(m, a), value(c), c);
    }
}

/// Whole numbers up to 16 million are numbers.
pub proof fn whole_numbers_are_exact<M: Math>(m: &M, rnd: spec_fn(real) -> int, i: int) -> (c:
    Single)
    requires
        rounds(m, rnd),
        -0x100_0000 <= i <= 0x100_0000,
    ensures
        c.finite(),
        value(c) == i as real,
        c == single(m, i as i128),
{
    single(m, i as i128)
}

/// The size of a number.
pub open spec fn size(v: real) -> real {
    if v < 0real {
        -v
    } else {
        v
    }
}

/// Rounding keeps the order of sizes.
pub proof fn rounding_keeps_sizes<M: Math>(
    m: &M,
    rnd: spec_fn(real) -> int,
    r: Single,
    v: real,
    q: Single,
    w: real,
)
    requires
        rounds(m, rnd),
        stands_for(r, rnd(v)),
        stands_for(q, rnd(w)),
        r.finite(),
        q.finite(),
        size(v) <= size(w),
    ensures
        size(value(r)) <= size(value(q)),
{
    let zero = Single { bits: 0 };
    zero_is_nothing();
    assert(rnd(-v) == -rnd(v));
    assert(rnd(-w) == -rnd(w));
    size_is_exact(r);
    size_is_exact(q);
    assert(rnd(0real) == 0) by {
        assert(rnd(value(zero)) == zero.rank());
    }
    assert(r.abs().rank() == rnd(size(v)));
    assert(q.abs().rank() == rnd(size(w)));
    values_are_in_order(r.abs(), q.abs());
}

/// Half of a number from 1 on is a number.
pub proof fn halves_are_exact(x: Single) -> (h: Single)
    requires
        x.finite(),
        1real <= value(x),
    ensures
        h.finite(),
        value(h) == value(x) / 2real,
{
    powers_of_two();
    zero_is_nothing();
    let one = Single { bits: 0x3f80_0000 };
    values_are_in_order(one, x);
    let h = Single { bits: (x.bits - 0x80_0000) as u32 };
    assert(x.magnitude() == x.bits && x.bits >= 0x3f80_0000);
    let e = x.magnitude() / 0x80_0000;
    assert(h.magnitude() / 0x80_0000 == e - 1);
    assert(h.magnitude() % 0x80_0000 == x.magnitude() % 0x80_0000);
    let f = x.magnitude() % 0x80_0000 + 0x80_0000;
    lemma_pow2_unfold((e - 1) as nat);
    let (p, q) = (pow2((e - 1) as nat) as int, pow2((e - 2) as nat) as int);
    assert(f * p == 2 * (f * q)) by (nonlinear_arith)
        requires
            p == 2 * q,
    ;
    assert(x.scaled() == 2 * h.scaled());
    lemma_pow2_pos(149);
    let (u, a, b) = (pow2(149) as real, x.scaled() as real, h.scaled() as real);
    assert(b / u == (a / u) / 2real) by (nonlinear_arith)
        requires
            a == 2real * b,
            0real < u,
    ;
    h
}

/// A whole number of sixteenths, not below a half, is a number.
pub proof fn sixteenths_are_exact<M: Math>(m: &M, rnd: spec_fn(real) -> int, k: int) -> (c: Single)
    requires
        rounds(m, rnd),
        8 <= k <= 0x100_0000,
    ensures
        c.finite(),
        value(c) == (k as real) / 16real,
{
    let n = whole_numbers_are_exact(m, rnd, k);
    let a = halves_are_exact(n);
    let b = halves_are_exact(a);
    let c = halves_are_exact(b);
    let d = halves_are_exact(c);
    d
}

/// Twice a number from 1 to 2^20 is a number.
pub proof fn doubles_are_exact<M: Math>(m: &M, rnd: spec_fn(real) -> int, x: Single)
    requires
        rounds(m, rnd),
        x.finite(),
        1real <= value(x) <= 1_048_576real,
    ensures
        times(m, x, Single { bits: 0x4000_0000 }).finite(),
        value(times(m, x, Single { bits: 0x4000_0000 })) == 2real * value(x),
{
    powers_of_two();
    zero_is_nothing();
    let (one, high) = (Single { bits: 0x3f80_0000 }, Single { bits: 0x4980_0000 });
    values_are_in_order(one, x);
    values_are_in_order(x, high);
    let d = Single { bits: (x.bits + 0x80_0000) as u32 };
    let e = x.magnitude() / 0x80_0000;
    assert(d.magnitude() / 0x80_0000 == e + 1);
    assert(d.magnitude() % 0x80_0000 == x.magnitude() % 0x80_0000);
    let f = x.magnitude() % 0x80_0000 + 0x80_0000;
    lemma_pow2_unfold(e as nat);
    let (p, q) = (pow2(e as nat) as int, pow2((e - 1) as nat) as int);
    assert(f * p == 2 * (f * q)) by (nonlinear_arith)
        requires
            p == 2 * q,
    ;
    assert(d.scaled() == 2 * x.scaled());
    lemma_pow2_pos(149);
    let (u, a, b) = (pow2(149) as real, d.scaled() as real, x.scaled() as real);
    assert(a / u == 2real * (b / u)) by (nonlinear_arith)
        requires
            a == 2real * b,
            0real < u,
    ;
    rounding_keeps_sides(
        m,
        rnd,
        times(m, x, Single { bits: 0x4000_0000 }),
        2real * value(x),
        d,
    );
}

/// Whether `a` is this whole number.
pub open spec fn counts(a: Single, k: int) -> bool {
    a.finite() && value(a) == k as real
}

/// Arithmetic on whole numbers is exact, as long as the results are not too large.
pub proof fn whole_arithmetic_is_exact<M: Math>(
    m: &M,
    rnd: spec_fn(real) -> int,
    a: Single,
    i: int,
    b: Single,
    j: int,
)
    requires
        rounds(m, rnd),
        counts(a, i),
        counts(b, j),
    ensures
        -0x100_0000 <= i + j <= 0x100_0000 ==> counts(plus(m, a, b), i + j),
        -0x100_0000 <= i - j <= 0x100_0000 ==> counts(minus(m, a, b), i - j),
        -0x100_0000 <= i * j <= 0x100_0000 ==> counts(times(m, a, b), i * j),
{
    if -0x100_0000 <= i + j <= 0x100_0000 {
        let c = whole_numbers_are_exact(m, rnd, i + j);
        rounding_keeps_sides(m, rnd, plus(m, a, b), value(a) + value(b), c);
    }
    if -0x100_0000 <= i - j <= 0x100_0000 {
        let c = whole_numbers_are_exact(m, rnd, i - j);
        rounding_keeps_sides(m, rnd, minus(m, a, b), value(a) - value(b), c);
    }
    if -0x100_0000 <= i * j <= 0x100_0000 {
        let c = whole_numbers_are_exact(m, rnd, i * j);
        assert((i * j) as real == (i as real) * (j as real)) by (nonlinear_arith);
        rounding_keeps_sides(m, rnd, times(m, a, b), value(a) * value(b), c);
    }
}

} // verus!
