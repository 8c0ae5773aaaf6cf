//! What becomes of many elements: sums, maxima, dot products and the formulas
//! built from them, as relations over the element operations.
use vstd::prelude::*;

use crate::scalar::{
    exp_gives, is_zero_gives, maximum_gives, minus_gives, neg_infinity_gives, over_gives,
    plus_gives, sqrt_gives, times_gives, zero_gives,
};
use crate::scalar::Scalar;

verus! {

/// `r` is the sum of `xs`, added up from the left, starting at zero.
pub open spec fn sum_gives<S: Scalar>(xs: Seq<S>, r: S) -> bool
    decreases xs.len(),
{
    if xs.len() == 0 {
        zero_gives(r)
    } else {
        exists|s: S| sum_gives(xs.drop_last(), s) && #[trigger] plus_gives(s, xs.last(), r)
    }
}

/// `r` is the maximum of `xs`, compared from the left, starting below every
/// element.
pub open spec fn peak_gives<S: Scalar>(xs: Seq<S>, r: S) -> bool
    decreases xs.len(),
{
    if xs.len() == 0 {
        neg_infinity_gives(r)
    } else {
        exists|s: S| peak_gives(xs.drop_last(), s) && #[trigger] maximum_gives(s, xs.last(), r)
    }
}

/// `r` is `s` with the product of `x` and `y` added to it, or `s` itself where
/// `x` is zero.
pub open spec fn dot_step<S: Scalar>(s: S, x: S, y: S, r: S) -> bool {
    ||| is_zero_gives(x, true) && r == s
    ||| is_zero_gives(x, false) && exists|t: S|
        times_gives(x, y, t) && #[trigger] plus_gives(s, t, r)
}

/// `r` is the dot product of the first `n` elements of `xs` and `ys`, added up
/// from the left, starting at zero; terms with a zero in `xs` are left out.
pub open spec fn dot_gives<S: Scalar>(xs: Seq<S>, ys: Seq<S>, n: nat, r: S) -> bool
    decreases n,
{
    if n == 0 {
        zero_gives(r)
    } else {
        exists|s: S|
            dot_gives(xs, ys, (n - 1) as nat, s) && #[trigger] dot_step(s, xs[n - 1], ys[n - 1], r)
    }
}

/// A dot product grows by one step.
pub proof fn lemma_dot_extend<S: Scalar>(xs: Seq<S>, ys: Seq<S>, n: nat, s: S, r: S)
    requires
        dot_gives(xs, ys, n, s),
        dot_step(s, xs[n as int], ys[n as int], r),
    ensures
        dot_gives(xs, ys, n + 1, r),
{
    let k = n + 1;
    assert(dot_gives(xs, ys, (k - 1) as nat, s));
    assert(dot_step(s, xs[k - 1], ys[k - 1], r));
}

/// `r` is the larger of `x` and zero.
pub open spec fn relu_elem_gives<S: Scalar>(x: S, r: S) -> bool {
    exists|z: S| zero_gives(z) && #[trigger] maximum_gives(x, z, r)
}

/// `r` is the exponential of `x - m`.
pub open spec fn shifted_exp_gives<S: Scalar>(x: S, m: S, r: S) -> bool {
    exists|d: S| minus_gives(x, m, d) && #[trigger] exp_gives(d, r)
}

/// `ys` is the softmax of `xs` by way of the maximum `m`, the exponentials
/// `exps` and their sum `total`.
pub open spec fn softmax_via<S: Scalar>(
    xs: Seq<S>,
    ys: Seq<S>,
    m: S,
    exps: Seq<S>,
    total: S,
) -> bool {
    &&& peak_gives(xs, m)
    &&& exps.len() == xs.len()
    &&& forall|c: int| 0 <= c < xs.len() ==> shifted_exp_gives(xs[c], m, #[trigger] exps[c])
    &&& sum_gives(exps, total)
    &&& ys.len() == xs.len()
    &&& forall|c: int| 0 <= c < xs.len() ==> over_gives(exps[c], total, #[trigger] ys[c])
}

/// `ys` is the softmax of `xs`, with the maximum taken off before the
/// exponentials.
pub open spec fn softmax_gives<S: Scalar>(xs: Seq<S>, ys: Seq<S>) -> bool {
    exists|m: S, exps: Seq<S>, total: S| #[trigger] softmax_via(xs, ys, m, exps, total)
}

/// `r` is the square of `a - b`.
pub open spec fn square_diff_gives<S: Scalar>(a: S, b: S, r: S) -> bool {
    exists|d: S| minus_gives(a, b, d) && #[trigger] times_gives(d, d, r)
}

/// `r` is the distance of `xs` and `ys` by way of the squared differences `sq`
/// and their sum `total`.
pub open spec fn distance_via<S: Scalar>(
    xs: Seq<S>,
    ys: Seq<S>,
    sq: Seq<S>,
    total: S,
    r: S,
) -> bool {
    &&& sq.len() == xs.len()
    &&& forall|i: int| 0 <= i < xs.len() ==> square_diff_gives(xs[i], ys[i], #[trigger] sq[i])
    &&& sum_gives(sq, total)
    &&& sqrt_gives(total, r)
}

/// `r` is the Euclidean distance of `xs` and `ys`.
pub open spec fn distance_gives<S: Scalar>(xs: Seq<S>, ys: Seq<S>, r: S) -> bool {
    exists|sq: Seq<S>, total: S| #[trigger] distance_via(xs, ys, sq, total, r)
}

/// The sum of a list.
pub fn sum<S: Scalar>(xs: &[S]) -> (r: S)
    ensures
        sum_gives(xs@, r),
{
    let mut r: S = S::zero();
    let mut i: usize = 0;
    assert(xs@.take(0) =~= Seq::<S>::empty());
    while i < xs.len()
        invariant
            i <= xs@.len(),
            sum_gives(xs@.take(i as int), r),
        decreases xs@.len() - i,
    {
        let ghost s = r;
        r = r.plus(xs[i]);
        proof {
            assert(xs@.take(i + 1).drop_last() =~= xs@.take(i as int));
            assert(xs@.take(i + 1).last() == xs@[i as int]);
            assert(plus_gives(s, xs@.take(i + 1).last(), r));
        }
        i = i + 1;
    }
    assert(xs@.take(i as int) =~= xs@);
    r
}

/// The running maximum of the elements `from..to` of a list.
pub fn peak<S: Scalar>(xs: &[S], from: usize, to: usize) -> (r: S)
    requires
        from <= to <= xs@.len(),
    ensures
        peak_gives(xs@.subrange(from as int, to as int), r),
{
    let mut r: S = S::neg_infinity();
    let mut i: usize = from;
    assert(xs@.subrange(from as int, from as int) =~= Seq::<S>::empty());
    while i < to
        invariant
            from <= i <= to <= xs@.len(),
            peak_gives(xs@.subrange(from as int, i as int), r),
        decreases to - i,
    {
        let ghost s = r;
        r = r.maximum(xs[i]);
        proof {
            let next = xs@.subrange(from as int, i + 1);
            assert(next.drop_last() =~= xs@.subrange(from as int, i as int));
            assert(next.last() == xs@[i as int]);
            assert(maximum_gives(s, next.last(), r));
        }
        i = i + 1;
    }
    r
}

} // verus!
