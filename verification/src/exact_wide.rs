//! What `exact` states of single precision, of double precision.

use crate::exact::{size, stands_for, value};
use crate::math::{
    ceil_d, double, floor_d, minus_d, narrow, over_d, plus_d, round_d, sqrt_d, square_d, times_d,
    to_int_d, widen, Math,
};
use crate::scalar::{double_order_is_value_order, Double, Single};
use vstd::arithmetic::power2::{
    lemma2_to64, lemma2_to64_rest, lemma_pow2_adds, lemma_pow2_pos, lemma_pow2_unfold, pow2,
};
use vstd::prelude::*;

verus! {

/// The number that a finite bit pattern stands for.
pub open spec fn value_d(x: Double) -> real {
    (x.scaled() as real) / (pow2(1074) as real)
}

/// Whether `x` is a number, at this place in the order of all numbers.
pub open spec fn stands_for_d(x: Double, rank: int) -> bool {
    !x.nan() && x.rank() == rank
}

/// Whether `m` rounds exact results in double precision by `rnd`, which gives the
/// rank of the number that stands for a result: rounding keeps order, treats both
/// signs alike and leaves alone what needs none; and no difference of unlike
/// numbers vanishes.
pub open spec fn rounds_d<M: Math>(m: &M, rnd: spec_fn(real) -> int) -> bool {
    &&& forall|x: real, y: real| x <= y ==> #[trigger] rnd(x) <= #[trigger] rnd(y)
    &&& forall|x: real| #[trigger] rnd(-x) == -rnd(x)
    &&& forall|c: Double| c.finite() ==> rnd(#[trigger] value_d(c)) == c.rank()
    &&& forall|a: Double, b: Double|
        a.finite() && b.finite() ==> stands_for_d(
            #[trigger] plus_d(m, a, b),
            rnd(value_d(a) + value_d(b)),
        )
    &&& forall|a: Double, b: Double|
        a.finite() && b.finite() ==> stands_for_d(
            #[trigger] minus_d(m, a, b),
            rnd(value_d(a) - value_d(b)),
        )
    &&& forall|a: Double, b: Double|
        a.finite() && b.finite() && value_d(a) != value_d(b) ==> (#[trigger] minus_d(
            m,
            a,
            b,
        )).rank() != 0
    &&& forall|a: Double, b: Double|
        a.finite() && b.finite() ==> stands_for_d(
            #[trigger] times_d(m, a, b),
            rnd(value_d(a) * value_d(b)),
        )
    &&& forall|a: Double, b: Double|
        a.finite() && b.finite() && value_d(b) != 0real ==> stands_for_d(
            #[trigger] over_d(m, a, b),
            rnd(value_d(a) / value_d(b)),
        )
    &&& forall|a: Double|
        a.finite() ==> stands_for_d(#[trigger] square_d(m, a), rnd(value_d(a) * value_d(a)))
    &&& forall|i: i128|
        -0x20_0000_0000_0000 <= i <= 0x20_0000_0000_0000 ==> (#[trigger] double(m, i)).finite()
            && value_d(double(m, i)) == i as real
    &&& forall|a: Double, root: real|
        a.finite() && 0real <= root && root * root == value_d(a) ==> stands_for_d(
            #[trigger] sqrt_d(m, a),
            #[trigger] rnd(root),
        )
    &&& forall|a: Double, b: Double|
        a.finite() && b.finite() && 0real <= value_d(a) <= value_d(b) ==> (#[trigger] sqrt_d(
            m,
            a,
        )).at_most(#[trigger] sqrt_d(m, b))
}

/// Whether `m` keeps numbers where it widens them, and rounds by `rnd` where it
/// narrows them.
pub open spec fn converts<M: Math>(m: &M, rnd: spec_fn(real) -> int) -> bool {
    &&& forall|a: Single|
        a.finite() ==> (#[trigger] widen(m, a)).finite() && value_d(widen(m, a)) == value(a)
    &&& forall|a: Double|
        a.finite() ==> stands_for(#[trigger] narrow(m, a), rnd(value_d(a)))
}

/// Whether `k` is the greatest whole number that is not above `a`.
pub open spec fn is_floor_d(a: Double, k: int) -> bool {
    k as real <= value_d(a) < k as real + 1real
}

/// Whether `k` is the least whole number that is not below `a`.
pub open spec fn is_ceil_d(a: Double, k: int) -> bool {
    k as real - 1real < value_d(a) <= k as real
}

/// Whether `k` is the whole number nearest to `a`, with none as near.
pub open spec fn is_nearest_d(a: Double, k: int) -> bool {
    k as real - 1real / 2real < value_d(a) < k as real + 1real / 2real
}

/// Whether a number is whole.
pub open spec fn is_integer_d(a: Double, k: int) -> bool {
    value_d(a) == k as real
}

/// Whether `m` rounds down, up and to the nearest whole number, and turns whole
/// numbers into integers.
pub open spec fn steps_d<M: Math>(m: &M) -> bool {
    &&& forall|a: Double, k: int|
        a.finite() && #[trigger] is_floor_d(a, k) ==> floor_d(m, a).finite() && value_d(
            floor_d(m, a),
        ) == k as real
    &&& forall|a: Double, k: int|
        a.finite() && #[trigger] is_ceil_d(a, k) ==> ceil_d(m, a).finite() && value_d(ceil_d(m, a))
            == k as real
    &&& forall|a: Double, k: int|
        a.finite() && #[trigger] is_nearest_d(a, k) ==> round_d(m, a).finite() && value_d(
            round_d(m, a),
        ) == k as real
    &&& forall|a: Double, k: int|
        a.finite() && -0x20_0000_0000_0000 <= k <= 0x20_0000_0000_0000 && #[trigger] is_integer_d(
            a,
            k,
        ) ==> to_int_d(m, a) == k
}

/// Finite numbers are in the order of their bit patterns.
pub proof fn wide_values_are_in_order(a: Double, b: Double)
    requires
        a.finite(),
        b.finite(),
    ensures
        a.at_most(b) <==> value_d(a) <= value_d(b),
        a.below(b) <==> value_d(a) < value_d(b),
        a.rank() <= b.rank() <==> value_d(a) <= value_d(b),
        a.rank() == b.rank() <==> value_d(a) == value_d(b),
{
    double_order_is_value_order(a, b);
    double_order_is_value_order(b, a);
    lemma_pow2_pos(1074);
    let u = pow2(1074) as real;
    let (x, y) = (a.scaled() as real, b.scaled() as real);
    assert(a.scaled() <= b.scaled() <==> x <= y);
    assert(x <= y <==> x / u <= y / u) by (nonlinear_arith)
        requires
            u > 0real,
    ;
    assert(y <= x <==> y / u <= x / u) by (nonlinear_arith)
        requires
            u > 0real,
    ;
}

/// The pattern of all zeros stands for 0.
pub proof fn wide_zero_is_nothing()
    ensures
        value_d(Double { bits: 0 }) == 0real,
        (Double { bits: 0 }).rank() == 0,
        (Double { bits: 0 }).finite(),
{
    lemma_pow2_pos(1074);
    assert((Double { bits: 0 }).scaled() == 0);
    let u = pow2(1074) as real;
    assert(0real / u == 0real) by (nonlinear_arith)
        requires
            u > 0real,
    ;
}

/// What rounding does to a result, as against the finite number `c`.
pub proof fn wide_rounding_keeps_sides<M: Math>(
    m: &M,
    rnd: spec_fn(real) -> int,
    r: Double,
    v: real,
    c: Double,
)
    requires
        rounds_d(m, rnd),
        stands_for_d(r, rnd(v)),
        c.finite(),
    ensures
        v <= value_d(c) ==> r.at_most(c) && r.rank() <= c.rank(),
        value_d(c) <= v ==> c.at_most(r) && c.rank() <= r.rank(),
        v == value_d(c) ==> r.finite() && value_d(r) == v,
{
    assert(rnd(value_d(c)) == c.rank());
    if v == value_d(c) {
        assert(r.rank() == c.rank());
        wide_values_are_in_order(r, c);
    }
}

/// A result between two finite numbers is finite, and its value is between them.
pub proof fn wide_rounding_stays_between<M: Math>(
    m: &M,
    rnd: spec_fn(real) -> int,
    r: Double,
    v: real,
    lo: Double,
    hi: Double,
)
    requires
        rounds_d(m, rnd),
        stands_for_d(r, rnd(v)),
        lo.finite(),
        hi.finite(),
        value_d(lo) <= v <= value_d(hi),
    ensures
        r.finite(),
        value_d(lo) <= value_d(r) <= value_d(hi),
{
    wide_rounding_keeps_sides(m, rnd, r, v, lo);
    wide_rounding_keeps_sides(m, rnd, r, v, hi);
    wide_values_are_in_order(lo, r);
    wide_values_are_in_order(r, hi);
}

/// Whole numbers up to 2^53 are numbers.
pub proof fn wide_whole_numbers_are_exact<M: Math>(
    m: &M,
    rnd: spec_fn(real) -> int,
    i: int,
) -> (c: Double)
    requires
        rounds_d(m, rnd),
        -0x20_0000_0000_0000 <= i <= 0x20_0000_0000_0000,
    ensures
        c.finite(),
        value_d(c) == i as real,
        c == double(m, i as i128),
{
    double(m, i as i128)
}

/// Half of a number from 1/2 on is a number.
pub proof fn wide_halves_are_exact(x: Double) -> (h: Double)
    requires
        x.finite(),
        1real / 2real <= value_d(x),
    ensures
        h.finite(),
        value_d(h) == value_d(x) / 2real,
{
    wide_one_and_half();
    let half = Double { bits: 0x3fe0_0000_0000_0000 };
    wide_values_are_in_order(half, x);
    let h = Double { bits: (x.bits - 0x10_0000_0000_0000) as u64 };
    assert(x.magnitude() == x.bits && x.bits >= 0x3fe0_0000_0000_0000);
    let e = x.magnitude() / 0x10_0000_0000_0000;
    assert(h.magnitude() / 0x10_0000_0000_0000 == e - 1);
    assert(h.magnitude() % 0x10_0000_0000_0000 == x.magnitude() % 0x10_0000_0000_0000);
    let f = x.magnitude() % 0x10_0000_0000_0000 + 0x10_0000_0000_0000;
    lemma_pow2_unfold((e - 1) as nat);
    let (p, q) = (pow2((e - 1) as nat) as int, pow2((e - 2) as nat) as int);
    assert(f * p == 2 * (f * q)) by (nonlinear_arith)
        requires
            p == 2 * q,
    ;
    assert(x.scaled() == 2 * h.scaled());
    lemma_pow2_pos(1074);
    let (u, a, b) = (pow2(1074) as real, x.scaled() as real, h.scaled() as real);
    assert(b / u == (a / u) / 2real) by (nonlinear_arith)
        requires
            a == 2real * b,
            0real < u,
    ;
    h
}

/// 1 and 1/2 as bit patterns.
pub proof fn wide_one_and_half()
    ensures
        (Double { bits: 0x3ff0_0000_0000_0000 }).finite(),
        value_d(Double { bits: 0x3ff0_0000_0000_0000 }) == 1real,
        (Double { bits: 0x3fe0_0000_0000_0000 }).finite(),
        value_d(Double { bits: 0x3fe0_0000_0000_0000 }) == 1real / 2real,
{
    let (one, half) = (
        Double { bits: 0x3ff0_0000_0000_0000 },
        Double { bits: 0x3fe0_0000_0000_0000 },
    );
    lemma2_to64();
    lemma2_to64_rest();
    lemma_pow2_adds(52, 1022);
    lemma_pow2_unfold(1022);
    lemma_pow2_pos(1022);
    let (u, p) = (pow2(1074) as int, pow2(1022) as int);
    assert(one.magnitude() / 0x10_0000_0000_0000 == 1023);
    assert(half.magnitude() / 0x10_0000_0000_0000 == 1022);
    assert(one.scaled() == 0x10_0000_0000_0000 * p);
    assert(half.scaled() == 0x10_0000_0000_0000 * pow2(1021));
    assert(u == 0x10_0000_0000_0000 * p);
    let (a, b, c) = (u as real, one.scaled() as real, half.scaled() as real);
    assert(b / a == 1real && c / a == 1real / 2real) by (nonlinear_arith)
        requires
            0real < a,
            b == a,
            2real * c == a,
    ;
}

/// Changing the sign of a number changes the sign of its value.
pub proof fn wide_negation_is_exact(x: Double)
    ensures
        value_d(x.neg()) == -value_d(x),
        x.neg().rank() == -x.rank(),
        x.neg().finite() == x.finite(),
        x.neg().nan() == x.nan(),
{
    assert(x.neg().magnitude() == x.magnitude());
    assert(x.neg().scaled() == -x.scaled());
    lemma_pow2_pos(1074);
    let u = pow2(1074) as real;
    let v = x.scaled() as real;
    assert((-v) / u == -(v / u)) by (nonlinear_arith)
        requires
            u > 0real,
    ;
}

/// A whole number of quarters is a number.
pub proof fn wide_quarters_are_exact<M: Math>(
    m: &M,
    rnd: spec_fn(real) -> int,
    k: int,
) -> (c: Double)
    requires
        rounds_d(m, rnd),
        -0x20_0000_0000_0000 <= k <= 0x20_0000_0000_0000,
    ensures
        c.finite(),
        value_d(c) == (k as real) / 4real,
{
    if k == 0 {
        wide_zero_is_nothing();
        Double { bits: 0 }
    } else if k > 0 {
        let n = wide_whole_numbers_are_exact(m, rnd, k);
        let h = wide_halves_are_exact(n);
        let q = wide_halves_are_exact(h);
        q
    } else {
        let n = wide_whole_numbers_are_exact(m, rnd, -k);
        let h = wide_halves_are_exact(n);
        let q = wide_halves_are_exact(h);
        wide_negation_is_exact(q);
        q.neg()
    }
}

/// Rounding keeps the order of sizes.
pub proof fn wide_rounding_keeps_sizes<M: Math>(
    m: &M,
    rnd: spec_fn(real) -> int,
    r: Double,
    v: real,
    q: Double,
    w: real,
)
    requires
        rounds_d(m, rnd),
        stands_for_d(r, rnd(v)),
        stands_for_d(q, rnd(w)),
        r.finite(),
        q.finite(),
        size(v) <= size(w),
    ensures
        size(value_d(r)) <= size(value_d(q)),
{
    let zero = Double { bits: 0 };
    wide_zero_is_nothing();
    assert(rnd(-v) == -rnd(v));
    assert(rnd(-w) == -rnd(w));
    wide_negation_is_exact(r);
    wide_negation_is_exact(q);
    assert(rnd(0real) == 0) by {
        assert(rnd(value_d(zero)) == zero.rank());
    }
    wide_values_are_in_order(r, q);
    wide_values_are_in_order(r.neg(), q);
    wide_values_are_in_order(r, q.neg());
    wide_values_are_in_order(r, zero);
    wide_values_are_in_order(q, zero);
}

/// The root of a number is as the roots of perfect squares beside it.
pub proof fn wide_roots_keep_sides<M: Math>(
    m: &M,
    rnd: spec_fn(real) -> int,
    a: Double,
    root: Double,
    square: Double,
)
    requires
        rounds_d(m, rnd),
        a.finite() && root.finite() && square.finite(),
        0real <= value_d(a),
        0real <= value_d(root),
        value_d(square) == value_d(root) * value_d(root),
    ensures
        value_d(square) <= value_d(a) ==> root.at_most(sqrt_d(m, a)),
        value_d(a) <= value_d(square) ==> sqrt_d(m, a).at_most(root),
        value_d(a) == value_d(square) ==> sqrt_d(m, a).finite() && value_d(sqrt_d(m, a)) == value_d(
            root,
        ),
{
    let (s, v) = (sqrt_d(m, square), value_d(root));
    let at = value_d(square);
    assert(0real <= at) by (nonlinear_arith)
        requires
            at == v * v,
    ;
    assert(stands_for_d(s, rnd(v)));
    wide_rounding_keeps_sides(m, rnd, s, v, root);
    if value_d(a) == at {
        assert(stands_for_d(sqrt_d(m, a), rnd(v)));
        wide_rounding_keeps_sides(m, rnd, sqrt_d(m, a), v, root);
    }
}

/// The square of a size, where it is whole and not too large, is exact.
pub proof fn wide_squares_are_exact<M: Math>(
    m: &M,
    rnd: spec_fn(real) -> int,
    x: Double,
    k: int,
)
    requires
        rounds_d(m, rnd),
        x.finite(),
        -0x100_0000 <= k <= 0x100_0000,
        value_d(x) == k as real,
    ensures
        0 <= k * k <= 0x1_0000_0000_0000,
        times_d(m, x, x).finite(),
        value_d(times_d(m, x, x)) == (k * k) as real,
        square_d(m, x).finite(),
        value_d(square_d(m, x)) == (k * k) as real,
{
    assert(0 <= k * k <= 0x1_0000_0000_0000) by (nonlinear_arith)
        requires
            -0x100_0000 <= k <= 0x100_0000,
    ;
    let c = wide_whole_numbers_are_exact(m, rnd, k * k);
    let v = value_d(x);
    assert((k * k) as real == v * v) by (nonlinear_arith)
        requires
            v == k as real,
    ;
    wide_rounding_keeps_sides(m, rnd, times_d(m, x, x), v * v, c);
    wide_rounding_keeps_sides(m, rnd, square_d(m, x), v * v, c);
}

/// Roots grow with what they are taken of.
pub proof fn wide_roots_grow<M: Math>(m: &M, rnd: spec_fn(real) -> int, a: Double, b: Double)
    requires
        rounds_d(m, rnd),
        a.finite() && b.finite(),
        0real <= value_d(a) <= value_d(b) <= 1_125_899_906_842_624real,
    ensures
        sqrt_d(m, a).finite() && sqrt_d(m, b).finite(),
        0real <= value_d(sqrt_d(m, a)) <= value_d(sqrt_d(m, b)),
{
    let (u, v) = (sqrt_d(m, a), sqrt_d(m, b));
    assert(u.at_most(v));
    let zero = wide_whole_numbers_are_exact(m, rnd, 0);
    let top = wide_whole_numbers_are_exact(m, rnd, 0x4_0000_0000_0000);
    let high = wide_whole_numbers_are_exact(m, rnd, 0x200_0000);
    let (t, h) = (value_d(top), value_d(high));
    assert(t == h * h) by (nonlinear_arith)
        requires
            h == 33_554_432real,
            t == 1_125_899_906_842_624real,
    ;
    assert(value_d(zero) == value_d(zero) * value_d(zero));
    wide_roots_keep_sides(m, rnd, a, high, top);
    wide_roots_keep_sides(m, rnd, b, high, top);
    wide_roots_keep_sides(m, rnd, a, zero, zero);
    wide_roots_keep_sides(m, rnd, b, zero, zero);
    wide_values_are_in_order(u, v);
    wide_values_are_in_order(zero, u);
}

/// Whether `a` is this whole number.
pub open spec fn holds(a: Double, k: int) -> bool {
    a.finite() && value_d(a) == k as real
}

/// Arithmetic on whole numbers is exact, as long as the results are not too large.
pub proof fn wide_whole_arithmetic_is_exact<M: Math>(
    m: &M,
    rnd: spec_fn(real) -> int,
    a: Double,
    i: int,
    b: Double,
    j: int,
)
    requires
        rounds_d(m, rnd),
        holds(a, i),
        holds(b, j),
    ensures
        -0x20_0000_0000_0000 <= i + j <= 0x20_0000_0000_0000 ==> holds(plus_d(m, a, b), i + j),
        -0x20_0000_0000_0000 <= i - j <= 0x20_0000_0000_0000 ==> holds(minus_d(m, a, b), i - j),
        -0x20_0000_0000_0000 <= i * j <= 0x20_0000_0000_0000 ==> holds(times_d(m, a, b), i * j),
{
    if -0x20_0000_0000_0000 <= i + j <= 0x20_0000_0000_0000 {
        let c = wide_whole_numbers_are_exact(m, rnd, i + j);
        wide_rounding_keeps_sides(m, rnd, plus_d(m, a, b), value_d(a) + value_d(b), c);
    }
    if -0x20_0000_0000_0000 <= i - j <= 0x20_0000_0000_0000 {
        let c = wide_whole_numbers_are_exact(m, rnd, i - j);
        wide_rounding_keeps_sides(m, rnd, minus_d(m, a, b), value_d(a) - value_d(b), c);
    }
    if -0x20_0000_0000_0000 <= i * j <= 0x20_0000_0000_0000 {
        let c = wide_whole_numbers_are_exact(m, rnd, i * j);
        assert((i * j) as real == (i as real) * (j as real)) by (nonlinear_arith);
        wide_rounding_keeps_sides(m, rnd, times_d(m, a, b), value_d(a) * value_d(b), c);
    }
}

/// A division of whole numbers that leaves nothing is exact.
pub proof fn wide_whole_quotients_are_exact<M: Math>(
    m: &M,
    rnd: spec_fn(real) -> int,
    a: Double,
    b: Double,
    k: int,
    j: int,
)
    requires
        rounds_d(m, rnd),
        holds(a, k * j),
        holds(b, j),
        j != 0,
        -0x20_0000_0000_0000 <= k <= 0x20_0000_0000_0000,
    ensures
        holds(over_d(m, a, b), k),
{
    let c = wide_whole_numbers_are_exact(m, rnd, k);
    let (u, v, w) = (value_d(a), value_d(b), k as real);
    assert(u == w * v) by (nonlinear_arith)
        requires
            u == (k * j) as real,
            v == j as real,
            w == k as real,
    ;
    assert(u / v == w) by (nonlinear_arith)
        requires
            u == w * v,
            v != 0real,
    ;
    wide_rounding_keeps_sides(m, rnd, over_d(m, a, b), w, c);
}

/// 9 as a bit pattern.
pub proof fn wide_nine()
    ensures
        holds(Double { bits: 0x4022_0000_0000_0000 }, 9),
{
    let nine = Double { bits: 0x4022_0000_0000_0000 };
    lemma2_to64();
    lemma2_to64_rest();
    lemma_pow2_adds(49, 1025);
    lemma_pow2_pos(1025);
    let (u, p) = (pow2(1074) as int, pow2(1025) as int);
    assert(nine.magnitude() / 0x10_0000_0000_0000 == 1026);
    assert(nine.magnitude() % 0x10_0000_0000_0000 == 0x2_0000_0000_0000);
    assert(u == 0x2_0000_0000_0000 * p);
    assert(nine.scaled() == 0x12_0000_0000_0000 * p);
    let (a, b) = (u as real, nine.scaled() as real);
    assert(b / a == 9real) by (nonlinear_arith)
        requires
            0real < a,
            b == 9real * a,
    ;
}

/// A number that is between two numbers of quarters of a size, divided by the
/// size.
pub proof fn wide_shares_stay_between<M: Math>(
    m: &M,
    rnd: spec_fn(real) -> int,
    x: Double,
    size: Double,
    side: int,
    lo: int,
    hi: int,
)
    requires
        rounds_d(m, rnd),
        x.finite(),
        holds(size, side),
        1 <= side <= 0x10_0000,
        -0x100_0000 <= lo <= hi <= 0x100_0000,
        (lo * side) as real / 4real <= value_d(x) <= (hi * side) as real / 4real,
    ensures
        over_d(m, x, size).finite(),
        lo as real / 4real <= value_d(over_d(m, x, size)) <= hi as real / 4real,
{
    let a = wide_quarters_are_exact(m, rnd, lo);
    let b = wide_quarters_are_exact(m, rnd, hi);
    let (v, s, p, q) = (value_d(x), side as real, lo as real, hi as real);
    assert((lo * side) as real == p * s && (hi * side) as real == q * s) by (nonlinear_arith)
        requires
            s == side as real,
            p == lo as real,
            q == hi as real,
    ;
    assert(p / 4real <= v / s <= q / 4real) by (nonlinear_arith)
        requires
            1real <= s,
            (p * s) / 4real <= v <= (q * s) / 4real,
    ;
    wide_rounding_stays_between(m, rnd, over_d(m, x, size), v / s, a, b);
}

/// A million as a bit pattern.
pub proof fn wide_million()
    ensures
        holds(Double { bits: 0x412e_8480_0000_0000 }, 1_000_000),
{
    let million = Double { bits: 0x412e_8480_0000_0000 };
    lemma2_to64();
    lemma2_to64_rest();
    lemma_pow2_adds(33, 1041);
    lemma_pow2_pos(1041);
    let (u, p) = (pow2(1074) as int, pow2(1041) as int);
    assert(million.magnitude() / 0x10_0000_0000_0000 == 1042);
    assert(million.magnitude() % 0x10_0000_0000_0000 == 0xe_8480_0000_0000);
    assert(u == 0x2_0000_0000 * p);
    assert(million.scaled() == 0x1e_8480_0000_0000 * p);
    let (a, b) = (u as real, million.scaled() as real);
    assert(b / a == 1_000_000real) by (nonlinear_arith)
        requires
            0real < a,
            b == 1_000_000real * a,
    ;
}

/// A thousand as a bit pattern.
pub proof fn wide_thousand()
    ensures
        holds(Double { bits: 0x408f_4000_0000_0000 }, 1_000),
{
    let thousand = Double { bits: 0x408f_4000_0000_0000 };
    lemma2_to64();
    lemma2_to64_rest();
    lemma_pow2_adds(43, 1031);
    lemma_pow2_pos(1031);
    let (u, p) = (pow2(1074) as int, pow2(1031) as int);
    assert(thousand.magnitude() / 0x10_0000_0000_0000 == 1032);
    assert(thousand.magnitude() % 0x10_0000_0000_0000 == 0xf_4000_0000_0000);
    assert(u == 0x800_0000_0000 * p);
    assert(thousand.scaled() == 0x1f_4000_0000_0000 * p);
    let (a, b) = (u as real, thousand.scaled() as real);
    assert(b / a == 1_000real) by (nonlinear_arith)
        requires
            0real < a,
            b == 1_000real * a,
    ;
}

/// Two as a bit pattern.
pub proof fn wide_two()
    ensures
        holds(Double { bits: 0x4000_0000_0000_0000 }, 2),
{
    let two = Double { bits: 0x4000_0000_0000_0000 };
    lemma2_to64();
    lemma2_to64_rest();
    lemma_pow2_adds(51, 1023);
    lemma_pow2_pos(1023);
    let (u, p) = (pow2(1074) as int, pow2(1023) as int);
    assert(two.magnitude() / 0x10_0000_0000_0000 == 1024);
    assert(two.magnitude() % 0x10_0000_0000_0000 == 0);
    assert(u == 0x8_0000_0000_0000 * p);
    assert(two.scaled() == 0x10_0000_0000_0000 * p);
    let (a, b) = (u as real, two.scaled() as real);
    assert(b / a == 2real) by (nonlinear_arith)
        requires
            0real < a,
            b == 2real * a,
    ;
}

} // verus!
