//! The arithmetic of one tensor element.
//!
//! Tensor code is written against [`Scalar`], whose methods promise nothing:
//! contracts say which operation produced which element, through the `_gives`
//! relations below, and never what the operation computes. They therefore hold
//! for every implementation, also for one that may answer one question in
//! several ways, as IEEE arithmetic does with the payload of a NaN.
use vstd::prelude::*;

verus! {

/// How two elements compare.
#[derive(Debug, Clone, Copy, PartialEq, Eq, Structural)]
pub enum Order {
    Less,
    Equal,
    Greater,
    /// The elements have no order, as with a NaN.
    Unordered,
}

/// What tensors ask of their elements.
pub trait Scalar: Copy {
    /// The constant `0`.
    fn zero() -> Self;

    /// The value below every other: the start of a running maximum.
    fn neg_infinity() -> Self;

    /// The circle constant.
    fn pi() -> Self;

    /// The element nearest to an integer.
    fn from_u64(n: u64) -> Self;

    /// The element that a 32-bit pattern encodes.
    fn from_bits(bits: u32) -> Self;

    /// `self + other`.
    fn plus(self, other: Self) -> Self;

    /// `self - other`.
    fn minus(self, other: Self) -> Self;

    /// `self * other`.
    fn times(self, other: Self) -> Self;

    /// `self / other`.
    fn over(self, other: Self) -> Self;

    /// The larger of two elements.
    fn maximum(self, other: Self) -> Self;

    /// `-self`.
    fn negate(self) -> Self;

    /// The exponential function.
    fn exp(self) -> Self;

    /// The natural logarithm.
    fn ln(self) -> Self;

    /// The square root.
    fn sqrt(self) -> Self;

    /// The sine of an angle in radians.
    fn sin(self) -> Self;

    /// The cosine of an angle in radians.
    fn cos(self) -> Self;

    /// The magnitude of the element.
    fn abs(self) -> Self;

    /// The element as an index, rounded towards zero.
    fn to_index(self) -> usize;

    /// Whether the element equals `0`.
    fn is_zero(self) -> bool;

    /// How the element compares with another.
    fn order(self, other: Self) -> Order;
}

/// `r` can come from [`Scalar::zero`].
pub open spec fn zero_gives<S: Scalar>(r: S) -> bool {
    call_ensures(S::zero, (), r)
}

/// `r` can come from [`Scalar::neg_infinity`].
pub open spec fn neg_infinity_gives<S: Scalar>(r: S) -> bool {
    call_ensures(S::neg_infinity, (), r)
}

/// `r` can come from [`Scalar::pi`].
pub open spec fn pi_gives<S: Scalar>(r: S) -> bool {
    call_ensures(S::pi, (), r)
}

/// `r` can come from [`Scalar::from_u64`] of `n`.
pub open spec fn from_u64_gives<S: Scalar>(n: u64, r: S) -> bool {
    call_ensures(S::from_u64, (n,), r)
}

/// `r` can come from [`Scalar::from_bits`] of `bits`.
pub open spec fn from_bits_gives<S: Scalar>(bits: u32, r: S) -> bool {
    call_ensures(S::from_bits, (bits,), r)
}

/// `r` can come from [`Scalar::plus`] of `a` and `b`.
pub open spec fn plus_gives<S: Scalar>(a: S, b: S, r: S) -> bool {
    call_ensures(S::plus, (a, b), r)
}

/// `r` can come from [`Scalar::minus`] of `a` and `b`.
pub open spec fn minus_gives<S: Scalar>(a: S, b: S, r: S) -> bool {
    call_ensures(S::minus, (a, b), r)
}

/// `r` can come from [`Scalar::times`] of `a` and `b`.
pub open spec fn times_gives<S: Scalar>(a: S, b: S, r: S) -> bool {
    call_ensures(S::times, (a, b), r)
}

/// `r` can come from [`Scalar::over`] of `a` and `b`.
pub open spec fn over_gives<S: Scalar>(a: S, b: S, r: S) -> bool {
    call_ensures(S::over, (a, b), r)
}

/// `r` can come from [`Scalar::maximum`] of `a` and `b`.
pub open spec fn maximum_gives<S: Scalar>(a: S, b: S, r: S) -> bool {
    call_ensures(S::maximum, (a, b), r)
}

/// `r` can come from [`Scalar::negate`] of `a`.
pub open spec fn negate_gives<S: Scalar>(a: S, r: S) -> bool {
    call_ensures(S::negate, (a,), r)
}

/// `r` can come from [`Scalar::exp`] of `a`.
pub open spec fn exp_gives<S: Scalar>(a: S, r: S) -> bool {
    call_ensures(S::exp, (a,), r)
}

/// `r` can come from [`Scalar::ln`] of `a`.
pub open spec fn ln_gives<S: Scalar>(a: S, r: S) -> bool {
    call_ensures(S::ln, (a,), r)
}

/// `r` can come from [`Scalar::sqrt`] of `a`.
pub open spec fn sqrt_gives<S: Scalar>(a: S, r: S) -> bool {
    call_ensures(S::sqrt, (a,), r)
}

/// `r` can come from [`Scalar::sin`] of `a`.
pub open spec fn sin_gives<S: Scalar>(a: S, r: S) -> bool {
    call_ensures(S::sin, (a,), r)
}

/// `r` can come from [`Scalar::cos`] of `a`.
pub open spec fn cos_gives<S: Scalar>(a: S, r: S) -> bool {
    call_ensures(S::cos, (a,), r)
}

/// `r` can come from [`Scalar::abs`] of `a`.
pub open spec fn abs_gives<S: Scalar>(a: S, r: S) -> bool {
    call_ensures(S::abs, (a,), r)
}

/// `r` can come from [`Scalar::to_index`] of `a`.
pub open spec fn to_index_gives<S: Scalar>(a: S, r: usize) -> bool {
    call_ensures(S::to_index, (a,), r)
}

/// `r` can come from [`Scalar::is_zero`] of `a`.
pub open spec fn is_zero_gives<S: Scalar>(a: S, r: bool) -> bool {
    call_ensures(S::is_zero, (a,), r)
}

/// `r` can come from [`Scalar::order`] of `a` and `b`.
pub open spec fn order_gives<S: Scalar>(a: S, b: S, r: Order) -> bool {
    call_ensures(S::order, (a, b), r)
}

/// Elements agree by `eq` with themselves and either way round, and every
/// operation makes results that agree from arguments that agree: two calls may
/// differ only by what `eq` disregards.
pub open spec fn respects<S: Scalar>(eq: spec_fn(S, S) -> bool) -> bool {
    &&& forall|a: S| #[trigger] eq(a, a)
    &&& forall|a: S, b: S| #[trigger] eq(a, b) ==> eq(b, a)
    &&& forall|r: S, q: S| #[trigger] zero_gives(r) && #[trigger] zero_gives(q) ==> eq(r, q)
    &&& forall|r: S, q: S| #[trigger]
        neg_infinity_gives(r) && #[trigger] neg_infinity_gives(q) ==> eq(r, q)
    &&& forall|r: S, q: S| #[trigger] pi_gives(r) && #[trigger] pi_gives(q) ==> eq(r, q)
    &&& forall|n: u64, r: S, q: S| #[trigger]
        from_u64_gives(n, r) && #[trigger] from_u64_gives(n, q) ==> eq(r, q)
    &&& forall|bits: u32, r: S, q: S| #[trigger]
        from_bits_gives(bits, r) && #[trigger] from_bits_gives(bits, q) ==> eq(r, q)
    &&& forall|a: S, b: S, c: S, d: S, r: S, q: S| #[trigger]
        plus_gives(a, c, r) && #[trigger] plus_gives(b, d, q) && eq(a, b) && eq(c, d) ==> eq(r, q)
    &&& forall|a: S, b: S, c: S, d: S, r: S, q: S| #[trigger]
        minus_gives(a, c, r) && #[trigger] minus_gives(b, d, q) && eq(a, b) && eq(c, d) ==> eq(r, q)
    &&& forall|a: S, b: S, c: S, d: S, r: S, q: S| #[trigger]
        times_gives(a, c, r) && #[trigger] times_gives(b, d, q) && eq(a, b) && eq(c, d) ==> eq(r, q)
    &&& forall|a: S, b: S, c: S, d: S, r: S, q: S| #[trigger]
        over_gives(a, c, r) && #[trigger] over_gives(b, d, q) && eq(a, b) && eq(c, d) ==> eq(r, q)
    &&& forall|a: S, b: S, c: S, d: S, r: S, q: S| #[trigger]
        maximum_gives(a, c, r) && #[trigger] maximum_gives(b, d, q) && eq(a, b) && eq(c, d) ==> eq(r, q)
    &&& forall|a: S, b: S, r: S, q: S| #[trigger]
        negate_gives(a, r) && #[trigger] negate_gives(b, q) && eq(a, b) ==> eq(r, q)
    &&& forall|a: S, b: S, r: S, q: S| #[trigger]
        exp_gives(a, r) && #[trigger] exp_gives(b, q) && eq(a, b) ==> eq(r, q)
    &&& forall|a: S, b: S, r: S, q: S| #[trigger]
        ln_gives(a, r) && #[trigger] ln_gives(b, q) && eq(a, b) ==> eq(r, q)
    &&& forall|a: S, b: S, r: S, q: S| #[trigger]
        sqrt_gives(a, r) && #[trigger] sqrt_gives(b, q) && eq(a, b) ==> eq(r, q)
    &&& forall|a: S, b: S, r: S, q: S| #[trigger]
        sin_gives(a, r) && #[trigger] sin_gives(b, q) && eq(a, b) ==> eq(r, q)
    &&& forall|a: S, b: S, r: S, q: S| #[trigger]
        cos_gives(a, r) && #[trigger] cos_gives(b, q) && eq(a, b) ==> eq(r, q)
    &&& forall|a: S, b: S, r: S, q: S| #[trigger]
        abs_gives(a, r) && #[trigger] abs_gives(b, q) && eq(a, b) ==> eq(r, q)
    &&& forall|a: S, b: S, r: usize, q: usize| #[trigger]
        to_index_gives(a, r) && #[trigger] to_index_gives(b, q) && eq(a, b) ==> r == q
    &&& forall|a: S, b: S, r: bool, q: bool| #[trigger]
        is_zero_gives(a, r) && #[trigger] is_zero_gives(b, q) && eq(a, b) ==> r == q
    &&& forall|a: S, b: S, c: S, d: S, r: Order, q: Order| #[trigger]
        order_gives(a, c, r) && #[trigger] order_gives(b, d, q) && eq(a, b) && eq(c, d) ==> r == q
}

/// Elements agree where they are the same or both are NaN.
pub open spec fn same_but_for<S>(nan: spec_fn(S) -> bool) -> spec_fn(S, S) -> bool {
    |a: S, b: S| a == b || (nan(a) && nan(b))
}

} // verus!
