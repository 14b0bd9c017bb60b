//! The arithmetic that the library's formulas are made of.
//!
//! The library does not compute with real numbers itself: whoever calls it
//! brings the arithmetic, as a `Math`. The formulas stand here and in the other
//! modules, written with the functions below; contracts state results as the
//! same formulas.

use crate::scalar::{Double, Single};
use vstd::prelude::*;

verus! {

/// Functions of one single-precision number.
#[derive(Debug, Clone, Copy, PartialEq, Eq, Structural)]
pub enum Unary {
    Sqrt,
    /// The number times itself.
    Square,
    Atan,
    Cos,
    Sin,
    Exp,
    /// The largest whole number that is no larger.
    Floor,
    /// The nearest whole number, halves away from zero.
    Round,
    /// The smallest whole number that is no smaller.
    Ceil,
    /// Degrees to radians.
    ToRadians,
    /// Radians to degrees.
    ToDegrees,
}

/// Functions of two single-precision numbers.
#[derive(Debug, Clone, Copy, PartialEq, Eq, Structural)]
pub enum Binary {
    Add,
    Sub,
    Mul,
    Div,
    /// Remainder with the sign of the first number.
    Rem,
    /// Remainder that is never negative.
    RemEuclid,
    /// Angle of the point (second, first), in radians.
    Atan2,
    /// The first number to the power of the second.
    Powf,
}

/// Functions of one double-precision number.
#[derive(Debug, Clone, Copy, PartialEq, Eq, Structural)]
pub enum UnaryD {
    Sqrt,
    /// The number to the power of two.
    Square,
    /// The number to the power of three.
    Cube,
    /// The largest whole number that is no larger.
    Floor,
    /// The nearest whole number, halves away from zero.
    Round,
    /// The smallest whole number that is no smaller.
    Ceil,
}

/// Functions of two double-precision numbers.
#[derive(Debug, Clone, Copy, PartialEq, Eq, Structural)]
pub enum BinaryD {
    Add,
    Sub,
    Mul,
    Div,
}

/// Arithmetic on single- and double-precision numbers.
pub trait Math {
    fn unary(&self, op: Unary, a: Single) -> Single;

    fn binary(&self, op: Binary, a: Single, b: Single) -> Single;

    fn unary_d(&self, op: UnaryD, a: Double) -> Double;

    fn binary_d(&self, op: BinaryD, a: Double, b: Double) -> Double;

    /// The nearest single-precision number.
    fn single_from_int(&self, i: i128) -> Single;

    /// The nearest double-precision number.
    fn double_from_int(&self, i: i128) -> Double;

    /// The whole part; 0 for a NaN, the nearest bound for what does not fit.
    fn single_to_int(&self, a: Single) -> i128;

    /// The whole part; 0 for a NaN, the nearest bound for what does not fit.
    fn double_to_int(&self, a: Double) -> i128;

    fn widen(&self, a: Single) -> Double;

    fn narrow(&self, a: Double) -> Single;

    /// The number that a decimal numeral stands for.
    fn parse_single(&self, text: &str) -> Option<Single>;

    /// The number that a decimal numeral stands for.
    fn parse_double(&self, text: &str) -> Option<Double>;

    /// A decimal numeral that stands for the number.
    fn show_double(&self, a: Double) -> String;

    /// The decimal numeral of the number rounded to a whole one.
    fn show_whole(&self, a: Double) -> String;
}

/// Whether `m` can return `r` from `unary`.
pub open spec fn unary_gives<M: Math>(m: &M, op: Unary, a: Single, r: Single) -> bool {
    call_ensures(M::unary, (m, op, a), r)
}

/// What `m` returns from `unary`.
pub open spec fn unary_of<M: Math>(m: &M, op: Unary, a: Single) -> Single {
    choose|r: Single| #[trigger] unary_gives(m, op, a, r)
}

/// Whether `m` can return `r` from `binary`.
pub open spec fn binary_gives<M: Math>(m: &M, op: Binary, a: Single, b: Single, r: Single) -> bool {
    call_ensures(M::binary, (m, op, a, b), r)
}

/// What `m` returns from `binary`.
pub open spec fn binary_of<M: Math>(m: &M, op: Binary, a: Single, b: Single) -> Single {
    choose|r: Single| #[trigger] binary_gives(m, op, a, b, r)
}

/// Whether `m` can return `r` from `unary_d`.
pub open spec fn unary_d_gives<M: Math>(m: &M, op: UnaryD, a: Double, r: Double) -> bool {
    call_ensures(M::unary_d, (m, op, a), r)
}

/// What `m` returns from `unary_d`.
pub open spec fn unary_d_of<M: Math>(m: &M, op: UnaryD, a: Double) -> Double {
    choose|r: Double| #[trigger] unary_d_gives(m, op, a, r)
}

/// Whether `m` can return `r` from `binary_d`.
pub open spec fn binary_d_gives<M: Math>(m: &M, op: BinaryD, a: Double, b: Double, r: Double) -> bool {
    call_ensures(M::binary_d, (m, op, a, b), r)
}

/// What `m` returns from `binary_d`.
pub open spec fn binary_d_of<M: Math>(m: &M, op: BinaryD, a: Double, b: Double) -> Double {
    choose|r: Double| #[trigger] binary_d_gives(m, op, a, b, r)
}

/// Whether `m` can return `r` from `single_from_int`.
pub open spec fn single_from_int_gives<M: Math>(m: &M, i: i128, r: Single) -> bool {
    call_ensures(M::single_from_int, (m, i), r)
}

/// What `m` returns from `single_from_int`.
pub open spec fn single_from_int_of<M: Math>(m: &M, i: i128) -> Single {
    choose|r: Single| #[trigger] single_from_int_gives(m, i, r)
}

/// Whether `m` can return `r` from `double_from_int`.
pub open spec fn double_from_int_gives<M: Math>(m: &M, i: i128, r: Double) -> bool {
    call_ensures(M::double_from_int, (m, i), r)
}

/// What `m` returns from `double_from_int`.
pub open spec fn double_from_int_of<M: Math>(m: &M, i: i128) -> Double {
    choose|r: Double| #[trigger] double_from_int_gives(m, i, r)
}

/// Whether `m` can return `r` from `single_to_int`.
pub open spec fn single_to_int_gives<M: Math>(m: &M, a: Single, r: i128) -> bool {
    call_ensures(M::single_to_int, (m, a), r)
}

/// What `m` returns from `single_to_int`.
pub open spec fn single_to_int_of<M: Math>(m: &M, a: Single) -> i128 {
    choose|r: i128| #[trigger] single_to_int_gives(m, a, r)
}

/// Whether `m` can return `r` from `double_to_int`.
pub open spec fn double_to_int_gives<M: Math>(m: &M, a: Double, r: i128) -> bool {
    call_ensures(M::double_to_int, (m, a), r)
}

/// What `m` returns from `double_to_int`.
pub open spec fn double_to_int_of<M: Math>(m: &M, a: Double) -> i128 {
    choose|r: i128| #[trigger] double_to_int_gives(m, a, r)
}

/// Whether `m` can return `r` from `widen`.
pub open spec fn widen_gives<M: Math>(m: &M, a: Single, r: Double) -> bool {
    call_ensures(M::widen, (m, a), r)
}

/// What `m` returns from `widen`.
pub open spec fn widen_of<M: Math>(m: &M, a: Single) -> Double {
    choose|r: Double| #[trigger] widen_gives(m, a, r)
}

/// Whether `m` can return `r` from `narrow`.
pub open spec fn narrow_gives<M: Math>(m: &M, a: Double, r: Single) -> bool {
    call_ensures(M::narrow, (m, a), r)
}

/// What `m` returns from `narrow`.
pub open spec fn narrow_of<M: Math>(m: &M, a: Double) -> Single {
    choose|r: Single| #[trigger] narrow_gives(m, a, r)
}

/// Whether `m` can return `r` from `parse_single` on a text with these characters.
pub open spec fn parse_single_gives<M: Math>(m: &M, text: Seq<char>, r: Option<Single>) -> bool {
    exists|s: &str| #[trigger] s@ == text && call_ensures(M::parse_single, (m, s), r)
}

/// What `m` returns from `parse_single` on a text with these characters.
pub open spec fn parse_single_of<M: Math>(m: &M, text: Seq<char>) -> Option<Single> {
    choose|r: Option<Single>| #[trigger] parse_single_gives(m, text, r)
}

/// Whether `m` can return `r` from `parse_double` on a text with these characters.
pub open spec fn parse_double_gives<M: Math>(m: &M, text: Seq<char>, r: Option<Double>) -> bool {
    exists|s: &str| #[trigger] s@ == text && call_ensures(M::parse_double, (m, s), r)
}

/// What `m` returns from `parse_double` on a text with these characters.
pub open spec fn parse_double_of<M: Math>(m: &M, text: Seq<char>) -> Option<Double> {
    choose|r: Option<Double>| #[trigger] parse_double_gives(m, text, r)
}

/// Whether `m` can return these characters from `show_double`.
pub open spec fn show_double_gives<M: Math>(m: &M, a: Double, r: Seq<char>) -> bool {
    exists|s: String| #[trigger] s@ == r && call_ensures(M::show_double, (m, a), s)
}

/// The characters that `m` returns from `show_double`.
pub open spec fn show_double_of<M: Math>(m: &M, a: Double) -> Seq<char> {
    choose|r: Seq<char>| #[trigger] show_double_gives(m, a, r)
}

/// Whether `m` can return these characters from `show_whole`.
pub open spec fn show_whole_gives<M: Math>(m: &M, a: Double, r: Seq<char>) -> bool {
    exists|s: String| #[trigger] s@ == r && call_ensures(M::show_whole, (m, a), s)
}

/// The characters that `m` returns from `show_whole`.
pub open spec fn show_whole_of<M: Math>(m: &M, a: Double) -> Seq<char> {
    choose|r: Seq<char>| #[trigger] show_whole_gives(m, a, r)
}

/// Whether adding a finite number keeps the order of finite numbers, and adding
/// one that is not negative lowers none, as with rounding to nearest.
pub open spec fn monotone<M: Math>(m: &M) -> bool {
    &&& forall|x: Single, y: Single, c: Single|
        x.finite() && y.finite() && c.finite() && x.at_most(y) ==> (#[trigger] plus(
            m,
            x,
            c,
        )).at_most(#[trigger] plus(m, y, c))
    &&& forall|x: Single, c: Single|
        x.finite() && c.finite() && (Single { bits: 0 }).at_most(c) ==> x.at_most(
            #[trigger] plus(m, x, c),
        )
}

/// Whether `m` always returns the same result for the same arguments.
pub open spec fn steady<M: Math>(m: &M) -> bool {
    &&& forall|op: Unary, a: Single, r: Single, q: Single|
        #[trigger] unary_gives(m, op, a, r) && #[trigger] unary_gives(m, op, a, q) ==> r == q
    &&& forall|op: Binary, a: Single, b: Single, r: Single, q: Single|
        #[trigger] binary_gives(m, op, a, b, r) && #[trigger] binary_gives(m, op, a, b, q) ==> r == q
    &&& forall|op: UnaryD, a: Double, r: Double, q: Double|
        #[trigger] unary_d_gives(m, op, a, r) && #[trigger] unary_d_gives(m, op, a, q) ==> r == q
    &&& forall|op: BinaryD, a: Double, b: Double, r: Double, q: Double|
        #[trigger] binary_d_gives(m, op, a, b, r) && #[trigger] binary_d_gives(m, op, a, b, q) ==> r == q
    &&& forall|i: i128, r: Single, q: Single|
        #[trigger] single_from_int_gives(m, i, r) && #[trigger] single_from_int_gives(m, i, q) ==> r == q
    &&& forall|i: i128, r: Double, q: Double|
        #[trigger] double_from_int_gives(m, i, r) && #[trigger] double_from_int_gives(m, i, q) ==> r == q
    &&& forall|a: Single, r: i128, q: i128|
        #[trigger] single_to_int_gives(m, a, r) && #[trigger] single_to_int_gives(m, a, q) ==> r == q
    &&& forall|a: Double, r: i128, q: i128|
        #[trigger] double_to_int_gives(m, a, r) && #[trigger] double_to_int_gives(m, a, q) ==> r == q
    &&& forall|a: Single, r: Double, q: Double|
        #[trigger] widen_gives(m, a, r) && #[trigger] widen_gives(m, a, q) ==> r == q
    &&& forall|a: Double, r: Single, q: Single|
        #[trigger] narrow_gives(m, a, r) && #[trigger] narrow_gives(m, a, q) ==> r == q
    &&& forall|text: Seq<char>, r: Option<Single>, q: Option<Single>|
        #[trigger] parse_single_gives(m, text, r) && #[trigger] parse_single_gives(m, text, q) ==> r == q
    &&& forall|text: Seq<char>, r: Option<Double>, q: Option<Double>|
        #[trigger] parse_double_gives(m, text, r) && #[trigger] parse_double_gives(m, text, q) ==> r == q
    &&& forall|a: Double, r: Seq<char>, q: Seq<char>|
        #[trigger] show_double_gives(m, a, r) && #[trigger] show_double_gives(m, a, q) ==> r == q
    &&& forall|a: Double, r: Seq<char>, q: Seq<char>|
        #[trigger] show_whole_gives(m, a, r) && #[trigger] show_whole_gives(m, a, q) ==> r == q
}

pub open spec fn spec_plus<M: Math>(m: &M, a: Single, b: Single) -> Single {
    binary_of(m, Binary::Add, a, b)
}

/// a + b
#[verifier::when_used_as_spec(spec_plus)]
pub fn plus<M: Math>(m: &M, a: Single, b: Single) -> (r: Single)
    requires
        steady(m),
    ensures
        r == spec_plus(m, a, b),
{
    let r = m.binary(Binary::Add, a, b);
    assert(binary_gives(m, Binary::Add, a, b, r));
    r
}

pub open spec fn spec_minus<M: Math>(m: &M, a: Single, b: Single) -> Single {
    binary_of(m, Binary::Sub, a, b)
}

/// a - b
#[verifier::when_used_as_spec(spec_minus)]
pub fn minus<M: Math>(m: &M, a: Single, b: Single) -> (r: Single)
    requires
        steady(m),
    ensures
        r == spec_minus(m, a, b),
{
    let r = m.binary(Binary::Sub, a, b);
    assert(binary_gives(m, Binary::Sub, a, b, r));
    r
}

pub open spec fn spec_times<M: Math>(m: &M, a: Single, b: Single) -> Single {
    binary_of(m, Binary::Mul, a, b)
}

/// a * b
#[verifier::when_used_as_spec(spec_times)]
pub fn times<M: Math>(m: &M, a: Single, b: Single) -> (r: Single)
    requires
        steady(m),
    ensures
        r == spec_times(m, a, b),
{
    let r = m.binary(Binary::Mul, a, b);
    assert(binary_gives(m, Binary::Mul, a, b, r));
    r
}

pub open spec fn spec_over<M: Math>(m: &M, a: Single, b: Single) -> Single {
    binary_of(m, Binary::Div, a, b)
}

/// a / b
#[verifier::when_used_as_spec(spec_over)]
pub fn over<M: Math>(m: &M, a: Single, b: Single) -> (r: Single)
    requires
        steady(m),
    ensures
        r == spec_over(m, a, b),
{
    let r = m.binary(Binary::Div, a, b);
    assert(binary_gives(m, Binary::Div, a, b, r));
    r
}

pub open spec fn spec_rem<M: Math>(m: &M, a: Single, b: Single) -> Single {
    binary_of(m, Binary::Rem, a, b)
}

/// a % b, with the sign of `a`.
#[verifier::when_used_as_spec(spec_rem)]
pub fn rem<M: Math>(m: &M, a: Single, b: Single) -> (r: Single)
    requires
        steady(m),
    ensures
        r == spec_rem(m, a, b),
{
    let r = m.binary(Binary::Rem, a, b);
    assert(binary_gives(m, Binary::Rem, a, b, r));
    r
}

pub open spec fn spec_rem_euclid<M: Math>(m: &M, a: Single, b: Single) -> Single {
    binary_of(m, Binary::RemEuclid, a, b)
}

/// a modulo b, never negative.
#[verifier::when_used_as_spec(spec_rem_euclid)]
pub fn rem_euclid<M: Math>(m: &M, a: Single, b: Single) -> (r: Single)
    requires
        steady(m),
    ensures
        r == spec_rem_euclid(m, a, b),
{
    let r = m.binary(Binary::RemEuclid, a, b);
    assert(binary_gives(m, Binary::RemEuclid, a, b, r));
    r
}

pub open spec fn spec_atan2<M: Math>(m: &M, a: Single, b: Single) -> Single {
    binary_of(m, Binary::Atan2, a, b)
}

/// Angle of the point (b, a), in radians.
#[verifier::when_used_as_spec(spec_atan2)]
pub fn atan2<M: Math>(m: &M, a: Single, b: Single) -> (r: Single)
    requires
        steady(m),
    ensures
        r == spec_atan2(m, a, b),
{
    let r = m.binary(Binary::Atan2, a, b);
    assert(binary_gives(m, Binary::Atan2, a, b, r));
    r
}

pub open spec fn spec_powf<M: Math>(m: &M, a: Single, b: Single) -> Single {
    binary_of(m, Binary::Powf, a, b)
}

/// `a` to the power of `b`.
#[verifier::when_used_as_spec(spec_powf)]
pub fn powf<M: Math>(m: &M, a: Single, b: Single) -> (r: Single)
    requires
        steady(m),
    ensures
        r == spec_powf(m, a, b),
{
    let r = m.binary(Binary::Powf, a, b);
    assert(binary_gives(m, Binary::Powf, a, b, r));
    r
}

pub open spec fn spec_sqrt<M: Math>(m: &M, a: Single) -> Single {
    unary_of(m, Unary::Sqrt, a)
}

/// Square root.
#[verifier::when_used_as_spec(spec_sqrt)]
pub fn sqrt<M: Math>(m: &M, a: Single) -> (r: Single)
    requires
        steady(m),
    ensures
        r == spec_sqrt(m, a),
{
    let r = m.unary(Unary::Sqrt, a);
    assert(unary_gives(m, Unary::Sqrt, a, r));
    r
}

pub open spec fn spec_square<M: Math>(m: &M, a: Single) -> Single {
    unary_of(m, Unary::Square, a)
}

/// `a` to the power of two.
#[verifier::when_used_as_spec(spec_square)]
pub fn square<M: Math>(m: &M, a: Single) -> (r: Single)
    requires
        steady(m),
    ensures
        r == spec_square(m, a),
{
    let r = m.unary(Unary::Square, a);
    assert(unary_gives(m, Unary::Square, a, r));
    r
}

pub open spec fn spec_atan<M: Math>(m: &M, a: Single) -> Single {
    unary_of(m, Unary::Atan, a)
}

/// Arc tangent, in radians.
#[verifier::when_used_as_spec(spec_atan)]
pub fn atan<M: Math>(m: &M, a: Single) -> (r: Single)
    requires
        steady(m),
    ensures
        r == spec_atan(m, a),
{
    let r = m.unary(Unary::Atan, a);
    assert(unary_gives(m, Unary::Atan, a, r));
    r
}

pub open spec fn spec_cos<M: Math>(m: &M, a: Single) -> Single {
    unary_of(m, Unary::Cos, a)
}

/// Cosine of an angle in radians.
#[verifier::when_used_as_spec(spec_cos)]
pub fn cos<M: Math>(m: &M, a: Single) -> (r: Single)
    requires
        steady(m),
    ensures
        r == spec_cos(m, a),
{
    let r = m.unary(Unary::Cos, a);
    assert(unary_gives(m, Unary::Cos, a, r));
    r
}

pub open spec fn spec_sin<M: Math>(m: &M, a: Single) -> Single {
    unary_of(m, Unary::Sin, a)
}

/// Sine of an angle in radians.
#[verifier::when_used_as_spec(spec_sin)]
pub fn sin<M: Math>(m: &M, a: Single) -> (r: Single)
    requires
        steady(m),
    ensures
        r == spec_sin(m, a),
{
    let r = m.unary(Unary::Sin, a);
    assert(unary_gives(m, Unary::Sin, a, r));
    r
}

pub open spec fn spec_exp<M: Math>(m: &M, a: Single) -> Single {
    unary_of(m, Unary::Exp, a)
}

/// The exponential function.
#[verifier::when_used_as_spec(spec_exp)]
pub fn exp<M: Math>(m: &M, a: Single) -> (r: Single)
    requires
        steady(m),
    ensures
        r == spec_exp(m, a),
{
    let r = m.unary(Unary::Exp, a);
    assert(unary_gives(m, Unary::Exp, a, r));
    r
}

pub open spec fn spec_floor<M: Math>(m: &M, a: Single) -> Single {
    unary_of(m, Unary::Floor, a)
}

/// The largest whole number that is no larger.
#[verifier::when_used_as_spec(spec_floor)]
pub fn floor<M: Math>(m: &M, a: Single) -> (r: Single)
    requires
        steady(m),
    ensures
        r == spec_floor(m, a),
{
    let r = m.unary(Unary::Floor, a);
    assert(unary_gives(m, Unary::Floor, a, r));
    r
}

pub open spec fn spec_round<M: Math>(m: &M, a: Single) -> Single {
    unary_of(m, Unary::Round, a)
}

/// The nearest whole number, halves away from zero.
#[verifier::when_used_as_spec(spec_round)]
pub fn round<M: Math>(m: &M, a: Single) -> (r: Single)
    requires
        steady(m),
    ensures
        r == spec_round(m, a),
{
    let r = m.unary(Unary::Round, a);
    assert(unary_gives(m, Unary::Round, a, r));
    r
}

pub open spec fn spec_ceil<M: Math>(m: &M, a: Single) -> Single {
    unary_of(m, Unary::Ceil, a)
}

/// The smallest whole number that is no smaller.
#[verifier::when_used_as_spec(spec_ceil)]
pub fn ceil<M: Math>(m: &M, a: Single) -> (r: Single)
    requires
        steady(m),
    ensures
        r == spec_ceil(m, a),
{
    let r = m.unary(Unary::Ceil, a);
    assert(unary_gives(m, Unary::Ceil, a, r));
    r
}

pub open spec fn spec_radians<M: Math>(m: &M, a: Single) -> Single {
    unary_of(m, Unary::ToRadians, a)
}

/// Degrees to radians.
#[verifier::when_used_as_spec(spec_radians)]
pub fn radians<M: Math>(m: &M, a: Single) -> (r: Single)
    requires
        steady(m),
    ensures
        r == spec_radians(m, a),
{
    let r = m.unary(Unary::ToRadians, a);
    assert(unary_gives(m, Unary::ToRadians, a, r));
    r
}

pub open spec fn spec_degrees<M: Math>(m: &M, a: Single) -> Single {
    unary_of(m, Unary::ToDegrees, a)
}

/// Radians to degrees.
#[verifier::when_used_as_spec(spec_degrees)]
pub fn degrees<M: Math>(m: &M, a: Single) -> (r: Single)
    requires
        steady(m),
    ensures
        r == spec_degrees(m, a),
{
    let r = m.unary(Unary::ToDegrees, a);
    assert(unary_gives(m, Unary::ToDegrees, a, r));
    r
}

pub open spec fn spec_plus_d<M: Math>(m: &M, a: Double, b: Double) -> Double {
    binary_d_of(m, BinaryD::Add, a, b)
}

/// a + b
#[verifier::when_used_as_spec(spec_plus_d)]
pub fn plus_d<M: Math>(m: &M, a: Double, b: Double) -> (r: Double)
    requires
        steady(m),
    ensures
        r == spec_plus_d(m, a, b),
{
    let r = m.binary_d(BinaryD::Add, a, b);
    assert(binary_d_gives(m, BinaryD::Add, a, b, r));
    r
}

pub open spec fn spec_minus_d<M: Math>(m: &M, a: Double, b: Double) -> Double {
    binary_d_of(m, BinaryD::Sub, a, b)
}

/// a - b
#[verifier::when_used_as_spec(spec_minus_d)]
pub fn minus_d<M: Math>(m: &M, a: Double, b: Double) -> (r: Double)
    requires
        steady(m),
    ensures
        r == spec_minus_d(m, a, b),
{
    let r = m.binary_d(BinaryD::Sub, a, b);
    assert(binary_d_gives(m, BinaryD::Sub, a, b, r));
    r
}

pub open spec fn spec_times_d<M: Math>(m: &M, a: Double, b: Double) -> Double {
    binary_d_of(m, BinaryD::Mul, a, b)
}

/// a * b
#[verifier::when_used_as_spec(spec_times_d)]
pub fn times_d<M: Math>(m: &M, a: Double, b: Double) -> (r: Double)
    requires
        steady(m),
    ensures
        r == spec_times_d(m, a, b),
{
    let r = m.binary_d(BinaryD::Mul, a, b);
    assert(binary_d_gives(m, BinaryD::Mul, a, b, r));
    r
}

pub open spec fn spec_over_d<M: Math>(m: &M, a: Double, b: Double) -> Double {
    binary_d_of(m, BinaryD::Div, a, b)
}

/// a / b
#[verifier::when_used_as_spec(spec_over_d)]
pub fn over_d<M: Math>(m: &M, a: Double, b: Double) -> (r: Double)
    requires
        steady(m),
    ensures
        r == spec_over_d(m, a, b),
{
    let r = m.binary_d(BinaryD::Div, a, b);
    assert(binary_d_gives(m, BinaryD::Div, a, b, r));
    r
}

pub open spec fn spec_sqrt_d<M: Math>(m: &M, a: Double) -> Double {
    unary_d_of(m, UnaryD::Sqrt, a)
}

/// Square root.
#[verifier::when_used_as_spec(spec_sqrt_d)]
pub fn sqrt_d<M: Math>(m: &M, a: Double) -> (r: Double)
    requires
        steady(m),
    ensures
        r == spec_sqrt_d(m, a),
{
    let r = m.unary_d(UnaryD::Sqrt, a);
    assert(unary_d_gives(m, UnaryD::Sqrt, a, r));
    r
}

pub open spec fn spec_square_d<M: Math>(m: &M, a: Double) -> Double {
    unary_d_of(m, UnaryD::Square, a)
}

/// `a` to the power of two.
#[verifier::when_used_as_spec(spec_square_d)]
pub fn square_d<M: Math>(m: &M, a: Double) -> (r: Double)
    requires
        steady(m),
    ensures
        r == spec_square_d(m, a),
{
    let r = m.unary_d(UnaryD::Square, a);
    assert(unary_d_gives(m, UnaryD::Square, a, r));
    r
}

pub open spec fn spec_cube_d<M: Math>(m: &M, a: Double) -> Double {
    unary_d_of(m, UnaryD::Cube, a)
}

/// `a` to the power of three.
#[verifier::when_used_as_spec(spec_cube_d)]
pub fn cube_d<M: Math>(m: &M, a: Double) -> (r: Double)
    requires
        steady(m),
    ensures
        r == spec_cube_d(m, a),
{
    let r = m.unary_d(UnaryD::Cube, a);
    assert(unary_d_gives(m, UnaryD::Cube, a, r));
    r
}

pub open spec fn spec_floor_d<M: Math>(m: &M, a: Double) -> Double {
    unary_d_of(m, UnaryD::Floor, a)
}

/// The largest whole number that is no larger.
#[verifier::when_used_as_spec(spec_floor_d)]
pub fn floor_d<M: Math>(m: &M, a: Double) -> (r: Double)
    requires
        steady(m),
    ensures
        r == spec_floor_d(m, a),
{
    let r = m.unary_d(UnaryD::Floor, a);
    assert(unary_d_gives(m, UnaryD::Floor, a, r));
    r
}

pub open spec fn spec_round_d<M: Math>(m: &M, a: Double) -> Double {
    unary_d_of(m, UnaryD::Round, a)
}

/// The nearest whole number, halves away from zero.
#[verifier::when_used_as_spec(spec_round_d)]
pub fn round_d<M: Math>(m: &M, a: Double) -> (r: Double)
    requires
        steady(m),
    ensures
        r == spec_round_d(m, a),
{
    let r = m.unary_d(UnaryD::Round, a);
    assert(unary_d_gives(m, UnaryD::Round, a, r));
    r
}

pub open spec fn spec_ceil_d<M: Math>(m: &M, a: Double) -> Double {
    unary_d_of(m, UnaryD::Ceil, a)
}

/// The smallest whole number that is no smaller.
#[verifier::when_used_as_spec(spec_ceil_d)]
pub fn ceil_d<M: Math>(m: &M, a: Double) -> (r: Double)
    requires
        steady(m),
    ensures
        r == spec_ceil_d(m, a),
{
    let r = m.unary_d(UnaryD::Ceil, a);
    assert(unary_d_gives(m, UnaryD::Ceil, a, r));
    r
}

pub open spec fn spec_single<M: Math>(m: &M, i: i128) -> Single {
    single_from_int_of(m, i)
}

/// The single-precision number nearest to a whole number.
#[verifier::when_used_as_spec(spec_single)]
pub fn single<M: Math>(m: &M, i: i128) -> (r: Single)
    requires
        steady(m),
    ensures
        r == spec_single(m, i),
{
    let r = m.single_from_int(i);
    assert(single_from_int_gives(m, i, r));
    r
}

pub open spec fn spec_double<M: Math>(m: &M, i: i128) -> Double {
    double_from_int_of(m, i)
}

/// The double-precision number nearest to a whole number.
#[verifier::when_used_as_spec(spec_double)]
pub fn double<M: Math>(m: &M, i: i128) -> (r: Double)
    requires
        steady(m),
    ensures
        r == spec_double(m, i),
{
    let r = m.double_from_int(i);
    assert(double_from_int_gives(m, i, r));
    r
}

pub open spec fn spec_to_int<M: Math>(m: &M, a: Single) -> i128 {
    single_to_int_of(m, a)
}

/// The whole part; 0 for a NaN, the nearest bound for what does not fit.
#[verifier::when_used_as_spec(spec_to_int)]
pub fn to_int<M: Math>(m: &M, a: Single) -> (r: i128)
    requires
        steady(m),
    ensures
        r == spec_to_int(m, a),
{
    let r = m.single_to_int(a);
    assert(single_to_int_gives(m, a, r));
    r
}

pub open spec fn spec_to_int_d<M: Math>(m: &M, a: Double) -> i128 {
    double_to_int_of(m, a)
}

/// The whole part; 0 for a NaN, the nearest bound for what does not fit.
#[verifier::when_used_as_spec(spec_to_int_d)]
pub fn to_int_d<M: Math>(m: &M, a: Double) -> (r: i128)
    requires
        steady(m),
    ensures
        r == spec_to_int_d(m, a),
{
    let r = m.double_to_int(a);
    assert(double_to_int_gives(m, a, r));
    r
}

pub open spec fn spec_widen<M: Math>(m: &M, a: Single) -> Double {
    widen_of(m, a)
}

/// The same number in double precision.
#[verifier::when_used_as_spec(spec_widen)]
pub fn widen<M: Math>(m: &M, a: Single) -> (r: Double)
    requires
        steady(m),
    ensures
        r == spec_widen(m, a),
{
    let r = m.widen(a);
    assert(widen_gives(m, a, r));
    r
}

pub open spec fn spec_narrow<M: Math>(m: &M, a: Double) -> Single {
    narrow_of(m, a)
}

/// The nearest number in single precision.
#[verifier::when_used_as_spec(spec_narrow)]
pub fn narrow<M: Math>(m: &M, a: Double) -> (r: Single)
    requires
        steady(m),
    ensures
        r == spec_narrow(m, a),
{
    let r = m.narrow(a);
    assert(narrow_gives(m, a, r));
    r
}

/// The number that the text stands for, if it is a decimal numeral.
pub fn read_single<M: Math>(m: &M, text: &str) -> (r: Option<Single>)
    requires
        steady(m),
    ensures
        r == parse_single_of(m, text@),
{
    let r = m.parse_single(text);
    assert(parse_single_gives(m, text@, r));
    r
}

/// The number that the text stands for, if it is a decimal numeral.
pub fn read_double<M: Math>(m: &M, text: &str) -> (r: Option<Double>)
    requires
        steady(m),
    ensures
        r == parse_double_of(m, text@),
{
    let r = m.parse_double(text);
    assert(parse_double_gives(m, text@, r));
    r
}

/// A decimal numeral that stands for the number.
pub fn write_double<M: Math>(m: &M, a: Double) -> (r: String)
    requires
        steady(m),
    ensures
        r@ == show_double_of(m, a),
{
    let r = m.show_double(a);
    assert(show_double_gives(m, a, r@));
    r
}

/// The decimal numeral of the number rounded to a whole one.
pub fn write_whole<M: Math>(m: &M, a: Double) -> (r: String)
    requires
        steady(m),
    ensures
        r@ == show_whole_of(m, a),
{
    let r = m.show_whole(a);
    assert(show_whole_gives(m, a, r@));
    r
}

/// `i`, or the nearest value of the type where it does not fit.
pub open spec fn spec_to_i32(i: i128) -> i32 {
    if i < -0x8000_0000 {
        (-0x8000_0000int) as i32
    } else if i > 0x7fff_ffff {
        (0x7fff_ffffint) as i32
    } else {
        i as i32
    }
}

/// `i`, or the nearest value of the type where it does not fit.
#[verifier::when_used_as_spec(spec_to_i32)]
pub fn to_i32(i: i128) -> (r: i32)
    ensures
        r == spec_to_i32(i),
{
    if i < -0x8000_0000 {
        -0x8000_0000
    } else if i > 0x7fff_ffff {
        0x7fff_ffff
    } else {
        i as i32
    }
}

/// `i`, or the nearest value of the type where it does not fit.
pub open spec fn spec_to_i64(i: i128) -> i64 {
    if i < -0x8000_0000_0000_0000 {
        (-0x8000_0000_0000_0000int) as i64
    } else if i > 0x7fff_ffff_ffff_ffff {
        (0x7fff_ffff_ffff_ffffint) as i64
    } else {
        i as i64
    }
}

/// `i`, or the nearest value of the type where it does not fit.
#[verifier::when_used_as_spec(spec_to_i64)]
pub fn to_i64(i: i128) -> (r: i64)
    ensures
        r == spec_to_i64(i),
{
    if i < -0x8000_0000_0000_0000 {
        -0x8000_0000_0000_0000
    } else if i > 0x7fff_ffff_ffff_ffff {
        0x7fff_ffff_ffff_ffff
    } else {
        i as i64
    }
}

/// `i`, or the nearest value of the type where it does not fit.
pub open spec fn spec_to_u64(i: i128) -> u64 {
    if i < 0 {
        (0int) as u64
    } else if i > 0xffff_ffff_ffff_ffff {
        (0xffff_ffff_ffff_ffffint) as u64
    } else {
        i as u64
    }
}

/// `i`, or the nearest value of the type where it does not fit.
#[verifier::when_used_as_spec(spec_to_u64)]
pub fn to_u64(i: i128) -> (r: u64)
    ensures
        r == spec_to_u64(i),
{
    if i < 0 {
        0
    } else if i > 0xffff_ffff_ffff_ffff {
        0xffff_ffff_ffff_ffff
    } else {
        i as u64
    }
}

/// `i`, or the nearest value of the type where it does not fit.
pub open spec fn spec_to_u8(i: i128) -> u8 {
    if i < 0 {
        (0int) as u8
    } else if i > 0xff {
        (0xffint) as u8
    } else {
        i as u8
    }
}

/// `i`, or the nearest value of the type where it does not fit.
#[verifier::when_used_as_spec(spec_to_u8)]
pub fn to_u8(i: i128) -> (r: u8)
    ensures
        r == spec_to_u8(i),
{
    if i < 0 {
        0
    } else if i > 0xff {
        0xff
    } else {
        i as u8
    }
}

/// `i`, or the nearest value of the type where it does not fit.
pub open spec fn spec_to_u32(i: i128) -> u32 {
    if i < 0 {
        (0int) as u32
    } else if i > 0xffff_ffff {
        (0xffff_ffffint) as u32
    } else {
        i as u32
    }
}

/// `i`, or the nearest value of the type where it does not fit.
#[verifier::when_used_as_spec(spec_to_u32)]
pub fn to_u32(i: i128) -> (r: u32)
    ensures
        r == spec_to_u32(i),
{
    if i < 0 {
        0
    } else if i > 0xffff_ffff {
        0xffff_ffff
    } else {
        i as u32
    }
}

} // verus!
