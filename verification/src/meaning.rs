//! What the tensor operations compute. The elements are read as integers by
//! [`Numbers::val`]; the laws say which integer each element of a result is, in
//! terms of the elements that went in.
//!
//! Under [`follows`] alone the operations on integers may be any: this is the
//! meaning for whatever the elements stand for. Under [`exact`] they are those
//! of arithmetic.
use vstd::prelude::*;

use crate::grid::{lemma_cell_inside, lemma_place_cell, row};
use crate::nn::{linear_gives, LinearView};
use crate::reduce::{
    distance_gives, distance_via, dot_gives, dot_step, peak_gives, relu_elem_gives,
    shifted_exp_gives, softmax_gives, softmax_via, square_diff_gives, sum_gives,
};
use crate::scalar::{maximum_gives, over_gives, plus_gives};
use crate::scalar::{Order, Scalar};
use crate::shape::{lemma_product_2, product, row_major};
use crate::tensor::{
    add_gives, addable, gathered, inbox, matmul_gives, relu_gives, scatter_gives,
    softmax_lastdim_gives,
};
use crate::tensor::TensorView;

verus! {

/// A reading of the elements as integers, and what each operation does to
/// them.
#[verifier::reject_recursive_types(S)]
pub struct Numbers<S> {
    pub val: spec_fn(S) -> int,
    pub zero: int,
    pub floor: int,
    pub pi: int,
    pub num: spec_fn(u64) -> int,
    pub bits: spec_fn(u32) -> int,
    pub add: spec_fn(int, int) -> int,
    pub sub: spec_fn(int, int) -> int,
    pub mul: spec_fn(int, int) -> int,
    pub div: spec_fn(int, int) -> int,
    pub max: spec_fn(int, int) -> int,
    pub neg: spec_fn(int) -> int,
    pub exp: spec_fn(int) -> int,
    pub ln: spec_fn(int) -> int,
    pub sqrt: spec_fn(int) -> int,
    pub sin: spec_fn(int) -> int,
    pub cos: spec_fn(int) -> int,
    pub abs: spec_fn(int) -> int,
    pub index: spec_fn(int) -> usize,
    pub null: spec_fn(int) -> bool,
    pub ord: spec_fn(int, int) -> Order,
}

/// The element operations do to the elements what the reading says.
pub open spec fn follows<S: Scalar>(m: Numbers<S>) -> bool {
    &&& forall|r: S| #[trigger] call_ensures(S::zero, (), r) ==> (m.val)(r) == m.zero
    &&& forall|r: S| #[trigger] call_ensures(S::neg_infinity, (), r) ==> (m.val)(r) == m.floor
    &&& forall|r: S| #[trigger] call_ensures(S::pi, (), r) ==> (m.val)(r) == m.pi
    &&& forall|n: u64, r: S| #[trigger]
        call_ensures(S::from_u64, (n,), r) ==> (m.val)(r) == (m.num)(n)
    &&& forall|b: u32, r: S| #[trigger]
        call_ensures(S::from_bits, (b,), r) ==> (m.val)(r) == (m.bits)(b)
    &&& forall|a: S, b: S, r: S| #[trigger]
        call_ensures(S::plus, (a, b), r) ==> (m.val)(r) == (m.add)((m.val)(a), (m.val)(b))
    &&& forall|a: S, b: S, r: S| #[trigger]
        call_ensures(S::minus, (a, b), r) ==> (m.val)(r) == (m.sub)((m.val)(a), (m.val)(b))
    &&& forall|a: S, b: S, r: S| #[trigger]
        call_ensures(S::times, (a, b), r) ==> (m.val)(r) == (m.mul)((m.val)(a), (m.val)(b))
    &&& forall|a: S, b: S, r: S| #[trigger]
        call_ensures(S::over, (a, b), r) ==> (m.val)(r) == (m.div)((m.val)(a), (m.val)(b))
    &&& forall|a: S, b: S, r: S| #[trigger]
        call_ensures(S::maximum, (a, b), r) ==> (m.val)(r) == (m.max)((m.val)(a), (m.val)(b))
    &&& forall|a: S, r: S| #[trigger]
        call_ensures(S::negate, (a,), r) ==> (m.val)(r) == (m.neg)((m.val)(a))
    &&& forall|a: S, r: S| #[trigger]
        call_ensures(S::exp, (a,), r) ==> (m.val)(r) == (m.exp)((m.val)(a))
    &&& forall|a: S, r: S| #[trigger]
        call_ensures(S::ln, (a,), r) ==> (m.val)(r) == (m.ln)((m.val)(a))
    &&& forall|a: S, r: S| #[trigger]
        call_ensures(S::sqrt, (a,), r) ==> (m.val)(r) == (m.sqrt)((m.val)(a))
    &&& forall|a: S, r: S| #[trigger]
        call_ensures(S::sin, (a,), r) ==> (m.val)(r) == (m.sin)((m.val)(a))
    &&& forall|a: S, r: S| #[trigger]
        call_ensures(S::cos, (a,), r) ==> (m.val)(r) == (m.cos)((m.val)(a))
    &&& forall|a: S, r: S| #[trigger]
        call_ensures(S::abs, (a,), r) ==> (m.val)(r) == (m.abs)((m.val)(a))
    &&& forall|a: S, r: usize| #[trigger]
        call_ensures(S::to_index, (a,), r) ==> r == (m.index)((m.val)(a))
    &&& forall|a: S, r: bool| #[trigger]
        call_ensures(S::is_zero, (a,), r) ==> r == (m.null)((m.val)(a))
    &&& forall|a: S, b: S, r: Order| #[trigger]
        call_ensures(S::order, (a, b), r) ==> r == (m.ord)((m.val)(a), (m.val)(b))
}

/// The operations on integers are those of arithmetic. Division and the
/// transcendental functions may still be any.
pub open spec fn exact<S: Scalar>(m: Numbers<S>) -> bool {
    &&& follows(m)
    &&& m.zero == 0
    &&& forall|n: u64| #[trigger] (m.num)(n) == n
    &&& forall|a: int, b: int| #[trigger] (m.add)(a, b) == a + b
    &&& forall|a: int, b: int| #[trigger] (m.sub)(a, b) == a - b
    &&& forall|a: int, b: int| #[trigger] (m.mul)(a, b) == a * b
    &&& forall|a: int, b: int| #[trigger]
        (m.max)(a, b) == if a >= b {
            a
        } else {
            b
        }
    &&& forall|a: int| #[trigger] (m.neg)(a) == -a
    &&& forall|a: int| #[trigger]
        (m.abs)(a) == if a >= 0 {
            a
        } else {
            -a
        }
    &&& forall|a: int| #[trigger] (m.null)(a) <==> a == 0
    &&& forall|a: int, b: int| #[trigger]
        (m.ord)(a, b) == if a < b {
            Order::Less
        } else if a == b {
            Order::Equal
        } else {
            Order::Greater
        }
}

// ---------- lists ----------

/// The sum of a list adds its elements up, in order.
pub proof fn sum_adds_up<S: Scalar>(m: Numbers<S>, xs: Seq<S>, r: S)
    requires
        follows(m),
        sum_gives(xs, r),
    ensures
        (m.val)(r) == xs.fold_left(m.zero, |s: int, x: S| (m.add)(s, (m.val)(x))),
        exact(m) ==> (m.val)(r) == xs.fold_left(0, |s: int, x: S| s + (m.val)(x)),
    decreases xs.len(),
{
    if xs.len() > 0 {
        let s = choose|s: S|
            sum_gives(xs.drop_last(), s) && #[trigger] plus_gives(s, xs.last(), r);
        sum_adds_up(m, xs.drop_last(), s);
    }
}

/// The maximum of a list is the maximum of its elements, taken in order; it is
/// one of them, and none is above it.
pub proof fn peak_is_the_maximum<S: Scalar>(m: Numbers<S>, xs: Seq<S>, r: S)
    requires
        follows(m),
        peak_gives(xs, r),
    ensures
        (m.val)(r) == xs.fold_left(m.floor, |s: int, x: S| (m.max)(s, (m.val)(x))),
        exact(m) ==> forall|i: int| 0 <= i < xs.len() ==> (m.val)(#[trigger] xs[i]) <= (m.val)(r),
        exact(m) ==> m.floor <= (m.val)(r),
        exact(m) ==> (m.val)(r) == m.floor || exists|i: int|
            0 <= i < xs.len() && (m.val)(#[trigger] xs[i]) == (m.val)(r),
    decreases xs.len(),
{
    if xs.len() > 0 {
        let rest = xs.drop_last();
        let s = choose|s: S|
            peak_gives(rest, s) && #[trigger] maximum_gives(s, xs.last(), r);
        peak_is_the_maximum(m, rest, s);
        if exact(m) {
            assert forall|i: int| 0 <= i < xs.len() implies (m.val)(#[trigger] xs[i]) <= (m.val)(
                r,
            ) by {
                if i < rest.len() {
                    assert(rest[i] == xs[i]);
                }
            }
            if (m.val)(r) != m.floor {
                if (m.val)(r) == (m.val)(xs.last()) {
                    assert((m.val)(xs[xs.len() - 1]) == (m.val)(r));
                } else {
                    let i = choose|i: int|
                        0 <= i < rest.len() && (m.val)(#[trigger] rest[i]) == (m.val)(s);
                    assert((m.val)(xs[i]) == (m.val)(r));
                }
            }
        }
    }
}

proof fn lemma_dot<S: Scalar>(m: Numbers<S>, xs: Seq<S>, ys: Seq<S>, n: nat, r: S)
    requires
        follows(m),
        dot_gives(xs, ys, n, r),
    ensures
        (m.val)(r) == Seq::new(n, |p: int| ((m.val)(xs[p]), (m.val)(ys[p]))).fold_left(
            m.zero,
            |s: int, t: (int, int)|
                if (m.null)(t.0) {
                    s
                } else {
                    (m.add)(s, (m.mul)(t.0, t.1))
                },
        ),
    decreases n,
{
    if n > 0 {
        let k = (n - 1) as nat;
        let s = choose|s: S|
            dot_gives(xs, ys, k, s) && #[trigger] dot_step(
                s,
                xs[n - 1],
                ys[n - 1],
                r,
            );
        lemma_dot(m, xs, ys, k, s);
        let f = |p: int| ((m.val)(xs[p]), (m.val)(ys[p]));
        assert(Seq::new(n, f).drop_last() =~= Seq::new(k, f));
    }
}

/// Leaving terms with a zero out changes no sum of products.
proof fn lemma_products(ts: Seq<(int, int)>)
    ensures
        ts.fold_left(
            0,
            |s: int, t: (int, int)|
                if t.0 == 0 {
                    s
                } else {
                    s + t.0 * t.1
                },
        ) == Seq::new(ts.len(), |p: int| ts[p].0 * ts[p].1).fold_left(0, |s: int, t: int| s + t),
    decreases ts.len(),
{
    if ts.len() > 0 {
        let rest = ts.drop_last();
        lemma_products(rest);
        let f = |p: int| ts[p].0 * ts[p].1;
        let g = |p: int| rest[p].0 * rest[p].1;
        assert(Seq::new(ts.len(), f).drop_last() =~= Seq::new(rest.len(), g));
        let a = ts.last().0;
        let b = ts.last().1;
        assert(a == 0 ==> a * b == 0) by (nonlinear_arith);
    }
}

// ---------- matmul ----------

/// Element `(i, j)` of a matrix product is the sum over `p` of the products of
/// the elements `(i, p)` and `(p, j)`; terms whose first factor is zero are
/// left out.
pub proof fn matmul_sums_products<S: Scalar>(
    m: Numbers<S>,
    a: TensorView<S>,
    b: TensorView<S>,
    r: TensorView<S>,
    i: int,
    j: int,
)
    requires
        follows(m),
        a.shape.len() == 2,
        b.shape.len() == 2,
        a.shape[1] == b.shape[0],
        matmul_gives(a, b, r),
        0 <= i < a.shape[0],
        0 <= j < b.shape[1],
    ensures
        r.shape == seq![a.shape[0], b.shape[1]],
        row_major(r.shape, r.strides),
        r.data.len() == a.shape[0] * b.shape[1],
        (m.val)(r.data[i * b.shape[1] + j]) == Seq::new(
            a.shape[1] as nat,
            |p: int|
                (
                    (m.val)(a.data[i * a.shape[1] + p]),
                    (m.val)(b.data[p * b.shape[1] + j]),
                ),
        ).fold_left(
            m.zero,
            |s: int, t: (int, int)|
                if (m.null)(t.0) {
                    s
                } else {
                    (m.add)(s, (m.mul)(t.0, t.1))
                },
        ),
        exact(m) ==> (m.val)(r.data[i * b.shape[1] + j]) == Seq::new(
            a.shape[1] as nat,
            |p: int|
                (m.val)(a.data[i * a.shape[1] + p]) * (m.val)(b.data[p * b.shape[1] + j]),
        ).fold_left(0, |s: int, t: int| s + t),
{
    lemma_product_2(r.shape);
    let k = a.shape[1] as nat;
    let xs = a.row(i);
    let ys = b.column(j);
    let c = r.at(i, j);
    lemma_dot(m, xs, ys, k, c);
    let ts = Seq::new(
        k,
        |p: int|
            ((m.val)(a.data[i * a.shape[1] + p]), (m.val)(b.data[p * b.shape[1] + j])),
    );
    assert(Seq::new(k, |p: int| ((m.val)(xs[p]), (m.val)(ys[p]))) =~= ts);
    if exact(m) {
        let f = |s: int, t: (int, int)|
            if (m.null)(t.0) {
                s
            } else {
                (m.add)(s, (m.mul)(t.0, t.1))
            };
        let g = |s: int, t: (int, int)|
            if t.0 == 0 {
                s
            } else {
                s + t.0 * t.1
            };
        assert(f =~= g);
        lemma_products(ts);
        assert(Seq::new(ts.len(), |p: int| ts[p].0 * ts[p].1) =~= Seq::new(
            k,
            |p: int|
                (m.val)(a.data[i * a.shape[1] + p]) * (m.val)(b.data[p * b.shape[1] + j]),
        ));
    }
}

proof fn lemma_sum_of_sums(xs: Seq<int>, ys: Seq<int>, zs: Seq<int>)
    requires
        xs.len() == zs.len(),
        ys.len() == zs.len(),
        forall|p: int| 0 <= p < zs.len() ==> #[trigger] zs[p] == xs[p] + ys[p],
    ensures
        zs.fold_left(0, |s: int, t: int| s + t) == xs.fold_left(0, |s: int, t: int| s + t)
            + ys.fold_left(0, |s: int, t: int| s + t),
    decreases zs.len(),
{
    if zs.len() > 0 {
        assert(zs[zs.len() - 1] == xs[xs.len() - 1] + ys[ys.len() - 1]);
        lemma_sum_of_sums(xs.drop_last(), ys.drop_last(), zs.drop_last());
    }
}

/// A product distributes over a sum: `a x (b + c)` is `a x b + a x c`.
pub proof fn matmul_distributes<S: Scalar>(
    m: Numbers<S>,
    a: TensorView<S>,
    b: TensorView<S>,
    c: TensorView<S>,
    bc: TensorView<S>,
    r: TensorView<S>,
    ab: TensorView<S>,
    ac: TensorView<S>,
    i: int,
    j: int,
)
    requires
        exact(m),
        a.shape.len() == 2,
        b.matrix(),
        c.matrix(),
        b.shape == c.shape,
        a.shape[1] == b.shape[0],
        add_gives(b, c, bc),
        matmul_gives(a, bc, r),
        matmul_gives(a, b, ab),
        matmul_gives(a, c, ac),
        0 <= i < a.shape[0],
        0 <= j < b.shape[1],
    ensures
        (m.val)(r.data[i * b.shape[1] + j]) == (m.val)(ab.data[i * b.shape[1] + j]) + (m.val)(
            ac.data[i * b.shape[1] + j],
        ),
{
    matmul_sums_products(m, a, bc, r, i, j);
    matmul_sums_products(m, a, b, ab, i, j);
    matmul_sums_products(m, a, c, ac, i, j);
    let k = a.shape[1] as nat;
    let n = b.shape[1] as nat;
    let xs = Seq::new(
        k,
        |p: int| (m.val)(a.data[i * a.shape[1] + p]) * (m.val)(b.data[p * b.shape[1] + j]),
    );
    let ys = Seq::new(
        k,
        |p: int| (m.val)(a.data[i * a.shape[1] + p]) * (m.val)(c.data[p * c.shape[1] + j]),
    );
    let zs = Seq::new(
        k,
        |p: int| (m.val)(a.data[i * a.shape[1] + p]) * (m.val)(bc.data[p * bc.shape[1] + j]),
    );
    lemma_product_2(b.shape);
    assert forall|p: int| 0 <= p < k implies #[trigger] zs[p] == xs[p] + ys[p] by {
        lemma_cell_inside(k, n, p, j);
        let q = p * b.shape[1] + j;
        add_adds_elements(m, b, c, bc, q);
        let x = (m.val)(a.data[i * a.shape[1] + p]);
        let y = (m.val)(b.data[q]);
        let z = (m.val)(c.data[q]);
        assert(x * (y + z) == x * y + x * z) by (nonlinear_arith);
    }
    lemma_sum_of_sums(xs, ys, zs);
}

// ---------- elementwise ----------

/// Each element of a sum is the sum of the elements at its place; a row that is
/// added to a matrix starts again with every row.
pub proof fn add_adds_elements<S: Scalar>(
    m: Numbers<S>,
    a: TensorView<S>,
    b: TensorView<S>,
    r: TensorView<S>,
    p: int,
)
    requires
        follows(m),
        a.dense(),
        addable(a.shape, b.shape),
        add_gives(a, b, r),
        0 <= p < a.data.len(),
    ensures
        r.shape == a.shape,
        row_major(r.shape, r.strides),
        r.data.len() == a.data.len(),
        (m.val)(r.data[p]) == (m.add)(
            (m.val)(a.data[p]),
            (m.val)(
                b.data[if a.shape == b.shape {
                    p
                } else {
                    p % (a.shape[1] as int)
                }],
            ),
        ),
        exact(m) ==> (m.val)(r.data[p]) == (m.val)(a.data[p]) + (m.val)(
            b.data[if a.shape == b.shape {
                p
            } else {
                p % (a.shape[1] as int)
            }],
        ),
{
    if a.shape == b.shape {
        assert(plus_gives(a.data[p], b.data[p], r.data[p]));
    } else {
        lemma_product_2(a.shape);
        let cols = a.shape[1] as nat;
        lemma_place_cell(a.shape[0] as nat, cols, p);
        let i = p / (cols as int);
        let j = p % (cols as int);
        assert(plus_gives(a.at(i, j), b.data[j], r.at(i, j)));
    }
}

/// Each element of a ReLU is the larger of the element at its place and zero.
pub proof fn relu_clips_elements<S: Scalar>(
    m: Numbers<S>,
    a: TensorView<S>,
    r: TensorView<S>,
    p: int,
)
    requires
        follows(m),
        a.dense(),
        relu_gives(a, r),
        0 <= p < a.data.len(),
    ensures
        r.shape == a.shape,
        row_major(r.shape, r.strides),
        r.data.len() == a.data.len(),
        (m.val)(r.data[p]) == (m.max)((m.val)(a.data[p]), m.zero),
        exact(m) ==> (m.val)(r.data[p]) == if (m.val)(a.data[p]) > 0 {
            (m.val)(a.data[p])
        } else {
            0
        },
{
    assert(relu_elem_gives(a.data[p], r.data[p]));
}

/// Each element of a softmax is its exponential over the sum of those along
/// the last dimension, all with the greatest element there taken off.
pub proof fn softmax_divides_exponentials<S: Scalar>(
    m: Numbers<S>,
    a: TensorView<S>,
    r: TensorView<S>,
    i: int,
    j: int,
)
    requires
        follows(m),
        a.dense(),
        a.shape.len() > 0,
        softmax_lastdim_gives(a, r),
        0 <= i,
        0 <= j < a.shape.last(),
        i * a.shape.last() + j < a.data.len(),
    ensures
        r.shape == a.shape,
        row_major(r.shape, r.strides),
        r.data.len() == a.data.len(),
        ({
            let from = i * a.shape.last();
            let xs = Seq::new(a.shape.last() as nat, |c: int| (m.val)(a.data[from + c]));
            let top = xs.fold_left(m.floor, |s: int, x: int| (m.max)(s, x));
            let total = xs.fold_left(
                m.zero,
                |s: int, x: int| (m.add)(s, (m.exp)((m.sub)(x, top))),
            );
            &&& (m.val)(r.data[from + j]) == (m.div)((m.exp)((m.sub)(xs[j], top)), total)
            &&& exact(m) ==> forall|c: int| 0 <= c < xs.len() ==> #[trigger] xs[c] <= top
            &&& exact(m) && m.floor <= xs[j] ==> xs.contains(top)
        }),
{
    let cols = a.shape.last() as nat;
    let rows = product(a.shape.drop_last());
    let from = i * a.shape.last();
    assert(i < rows) by (nonlinear_arith)
        requires
            i * cols + j < rows * cols,
            0 <= j,
            0 <= i,
            0 <= rows,
            0 < cols,
    ;
    let row_in = row(a.data, cols, i);
    let row_out = row(r.data, cols, i);
    assert(softmax_gives(row_in, row_out));
    let (top_elem, exps, total_elem) = choose|t: S, e: Seq<S>, s: S| #[trigger]
        softmax_via(row_in, row_out, t, e, s);
    let xs = Seq::new(cols, |c: int| (m.val)(a.data[from + c]));
    peak_is_the_maximum(m, row_in, top_elem);
    lemma_fold_of_values(
        row_in,
        m.val,
        m.floor,
        |s: int, x: int| (m.max)(s, x),
        |s: int, x: S| (m.max)(s, (m.val)(x)),
        xs,
    );
    let top = xs.fold_left(m.floor, |s: int, x: int| (m.max)(s, x));
    assert(top == (m.val)(top_elem));
    sum_adds_up(m, exps, total_elem);
    let es = Seq::new(cols, |c: int| (m.exp)((m.sub)(xs[c], top)));
    assert forall|c: int| 0 <= c < cols implies #[trigger] (m.val)(exps[c]) == es[c] by {
        assert(shifted_exp_gives(row_in[c], top_elem, exps[c]));
        assert(row_in[c] == a.data[from + c]);
    }
    lemma_fold_of_values(
        exps,
        m.val,
        m.zero,
        |s: int, x: int| (m.add)(s, x),
        |s: int, x: S| (m.add)(s, (m.val)(x)),
        es,
    );
    lemma_fold_of_images(
        xs,
        |x: int| (m.exp)((m.sub)(x, top)),
        m.zero,
        |s: int, x: int| (m.add)(s, x),
        |s: int, x: int| (m.add)(s, (m.exp)((m.sub)(x, top))),
        es,
    );
    assert(over_gives(exps[j], total_elem, row_out[j]));
    assert(row_out[j] == r.data[from + j]);
    if exact(m) {
        assert forall|c: int| 0 <= c < xs.len() implies #[trigger] xs[c] <= top by {
            assert((m.val)(row_in[c]) <= (m.val)(top_elem));
        }
        if m.floor <= xs[j] {
            if top == m.floor {
                assert(xs[j] == top);
            } else {
                let c = choose|c: int|
                    0 <= c < row_in.len() && (m.val)(#[trigger] row_in[c]) == (m.val)(top_elem);
                assert(xs[c] == top);
            }
        }
    }
}

/// A fold over elements is the fold over their values.
proof fn lemma_fold_of_values<A>(
    xs: Seq<A>,
    val: spec_fn(A) -> int,
    b: int,
    f: spec_fn(int, int) -> int,
    g: spec_fn(int, A) -> int,
    vs: Seq<int>,
)
    requires
        vs.len() == xs.len(),
        forall|c: int| 0 <= c < xs.len() ==> val(#[trigger] xs[c]) == vs[c],
        forall|s: int, x: A| #[trigger] g(s, x) == f(s, val(x)),
    ensures
        xs.fold_left(b, g) == vs.fold_left(b, f),
    decreases xs.len(),
{
    if xs.len() > 0 {
        assert forall|c: int| 0 <= c < xs.len() - 1 implies val(#[trigger] xs.drop_last()[c])
            == vs.drop_last()[c] by {
            assert(val(xs[c]) == vs[c]);
        }
        lemma_fold_of_values(xs.drop_last(), val, b, f, g, vs.drop_last());
        assert(val(xs[xs.len() - 1]) == vs[vs.len() - 1]);
    }
}

/// A fold over numbers is the fold over their images.
proof fn lemma_fold_of_images(
    xs: Seq<int>,
    h: spec_fn(int) -> int,
    b: int,
    f: spec_fn(int, int) -> int,
    g: spec_fn(int, int) -> int,
    es: Seq<int>,
)
    requires
        es.len() == xs.len(),
        forall|c: int| 0 <= c < xs.len() ==> h(#[trigger] xs[c]) == es[c],
        forall|s: int, x: int| #[trigger] g(s, x) == f(s, h(x)),
    ensures
        xs.fold_left(b, g) == es.fold_left(b, f),
{
    lemma_fold_of_values(xs, h, b, f, g, es);
}

// ---------- graph primitives ----------

/// Row `e` of what is gathered is row `index[e]`, element by element.
pub proof fn gather_copies_rows<S>(
    a: TensorView<S>,
    index: Seq<usize>,
    r: TensorView<S>,
    e: int,
    f: int,
)
    requires
        gathered(a, index, r),
        0 <= e < index.len(),
        0 <= f < a.shape[1],
    ensures
        r.shape == seq![index.len() as usize, a.shape[1]],
        row_major(r.shape, r.strides),
        r.data.len() == index.len() * a.shape[1],
        r.data[e * a.shape[1] + f] == a.data[index[e] * a.shape[1] + f],
{
    assert(r.shape =~= seq![index.len() as usize, a.shape[1]]);
    lemma_product_2(r.shape);
    assert(r.at(e, f) == a.at(index[e] as int, f));
}

proof fn lemma_inbox<S: Scalar>(
    m: Numbers<S>,
    a: TensorView<S>,
    index: Seq<usize>,
    node: int,
    f: int,
    n: nat,
)
    requires
        n <= index.len(),
    ensures
        inbox(a, index, node, f, n).fold_left(m.zero, |s: int, x: S| (m.add)(s, (m.val)(x)))
            == Seq::new(
            n,
            |e: int| (index[e] as int, (m.val)(a.data[e * a.shape[1] + f])),
        ).fold_left(
            m.zero,
            |s: int, t: (int, int)|
                if t.0 == node {
                    (m.add)(s, t.1)
                } else {
                    s
                },
        ),
    decreases n,
{
    if n > 0 {
        let k = (n - 1) as nat;
        lemma_inbox(m, a, index, node, f, k);
        let g = |e: int| (index[e] as int, (m.val)(a.data[e * a.shape[1] + f]));
        assert(Seq::new(n, g).drop_last() =~= Seq::new(k, g));
        let before = inbox(a, index, node, f, k);
        assert(before.push(a.at(n - 1, f)).drop_last() =~= before);
    }
}

/// What is scattered to a node adds up there: the elements of the rows whose
/// index is the node, in order.
pub proof fn scatter_adds_rows<S: Scalar>(
    m: Numbers<S>,
    a: TensorView<S>,
    index: Seq<usize>,
    num_nodes: nat,
    r: TensorView<S>,
    node: int,
    f: int,
)
    requires
        follows(m),
        scatter_gives(a, index, num_nodes, r),
        0 <= node < num_nodes,
        0 <= f < a.shape[1],
    ensures
        r.shape.len() == 2,
        r.shape[0] == num_nodes,
        r.shape[1] == a.shape[1],
        row_major(r.shape, r.strides),
        r.data.len() == num_nodes * a.shape[1],
        (m.val)(r.data[node * a.shape[1] + f]) == Seq::new(
            index.len(),
            |e: int| (index[e] as int, (m.val)(a.data[e * a.shape[1] + f])),
        ).fold_left(
            m.zero,
            |s: int, t: (int, int)|
                if t.0 == node {
                    (m.add)(s, t.1)
                } else {
                    s
                },
        ),
        exact(m) ==> (m.val)(r.data[node * a.shape[1] + f]) == Seq::new(
            index.len(),
            |e: int|
                if index[e] == node {
                    (m.val)(a.data[e * a.shape[1] + f])
                } else {
                    0
                },
        ).fold_left(0, |s: int, t: int| s + t),
{
    lemma_product_2(r.shape);
    let all = inbox(a, index, node, f, index.len());
    assert(sum_gives(all, r.at(node, f)));
    sum_adds_up(m, all, r.at(node, f));
    lemma_inbox(m, a, index, node, f, index.len());
    if exact(m) {
        let ts = Seq::new(
            index.len(),
            |e: int| (index[e] as int, (m.val)(a.data[e * a.shape[1] + f])),
        );
        lemma_heard(m, ts, node);
        assert(Seq::new(
            ts.len(),
            |e: int|
                if ts[e].0 == node {
                    ts[e].1
                } else {
                    0
                },
        ) =~= Seq::new(
            index.len(),
            |e: int|
                if index[e] == node {
                    (m.val)(a.data[e * a.shape[1] + f])
                } else {
                    0
                },
        ));
    }
}

proof fn lemma_heard<S: Scalar>(m: Numbers<S>, ts: Seq<(int, int)>, node: int)
    requires
        exact(m),
    ensures
        ts.fold_left(
            m.zero,
            |s: int, t: (int, int)|
                if t.0 == node {
                    (m.add)(s, t.1)
                } else {
                    s
                },
        ) == Seq::new(
            ts.len(),
            |e: int|
                if ts[e].0 == node {
                    ts[e].1
                } else {
                    0
                },
        ).fold_left(0, |s: int, t: int| s + t),
    decreases ts.len(),
{
    if ts.len() > 0 {
        let rest = ts.drop_last();
        lemma_heard(m, rest, node);
        let f = |e: int|
            if ts[e].0 == node {
                ts[e].1
            } else {
                0
            };
        let g = |e: int|
            if rest[e].0 == node {
                rest[e].1
            } else {
                0
            };
        assert(Seq::new(ts.len(), f).drop_last() =~= Seq::new(rest.len(), g));
    }
}

// ---------- distance ----------

/// The distance is the root of the sum of the squared differences.
pub proof fn distance_is_root_of_squares<S: Scalar>(
    m: Numbers<S>,
    xs: Seq<S>,
    ys: Seq<S>,
    r: S,
)
    requires
        follows(m),
        distance_gives(xs, ys, r),
    ensures
        (m.val)(r) == (m.sqrt)(
            Seq::new(
                xs.len(),
                |i: int|
                    (m.mul)(
                        (m.sub)((m.val)(xs[i]), (m.val)(ys[i])),
                        (m.sub)((m.val)(xs[i]), (m.val)(ys[i])),
                    ),
            ).fold_left(m.zero, |s: int, t: int| (m.add)(s, t)),
        ),
        exact(m) ==> (m.val)(r) == (m.sqrt)(
            Seq::new(
                xs.len(),
                |i: int|
                    ((m.val)(xs[i]) - (m.val)(ys[i])) * ((m.val)(xs[i]) - (m.val)(ys[i])),
            ).fold_left(0, |s: int, t: int| s + t),
        ),
{
    let (sq, total) = choose|sq: Seq<S>, total: S| #[trigger]
        distance_via(xs, ys, sq, total, r);
    sum_adds_up(m, sq, total);
    let ds = Seq::new(
        xs.len(),
        |i: int|
            (m.mul)(
                (m.sub)((m.val)(xs[i]), (m.val)(ys[i])),
                (m.sub)((m.val)(xs[i]), (m.val)(ys[i])),
            ),
    );
    assert forall|i: int| 0 <= i < sq.len() implies (m.val)(#[trigger] sq[i]) == ds[i] by {
        assert(square_diff_gives(xs[i], ys[i], sq[i]));
    }
    lemma_fold_of_values(
        sq,
        m.val,
        m.zero,
        |s: int, t: int| (m.add)(s, t),
        |s: int, x: S| (m.add)(s, (m.val)(x)),
        ds,
    );
    if exact(m) {
        let f = |s: int, t: int| (m.add)(s, t);
        let g = |s: int, t: int| s + t;
        assert(f =~= g);
        assert(ds =~= Seq::new(
            xs.len(),
            |i: int| ((m.val)(xs[i]) - (m.val)(ys[i])) * ((m.val)(xs[i]) - (m.val)(ys[i])),
        ));
    }
}

// ---------- layers ----------

/// Element `(i, j)` of what a layer gives is the sum over `p` of the products
/// of input `(i, p)` and weight `(p, j)`, plus the bias of output `j`.
pub proof fn layer_is_affine<S: Scalar>(
    m: Numbers<S>,
    layer: LinearView<S>,
    x: TensorView<S>,
    y: TensorView<S>,
    i: int,
    j: int,
)
    requires
        follows(m),
        layer.accepts(x.shape),
        linear_gives(layer, x, y),
        0 <= i < x.shape[0],
        0 <= j < layer.weight.shape[1],
    ensures
        y.shape == seq![x.shape[0], layer.weight.shape[1]],
        row_major(y.shape, y.strides),
        y.data.len() == x.shape[0] * layer.weight.shape[1],
        ({
            let n = layer.weight.shape[1] as int;
            let bias = (m.val)(
                layer.bias.data[if layer.bias.shape.len() == 1 {
                    j
                } else {
                    i * n + j
                }],
            );
            &&& (m.val)(y.data[i * n + j]) == (m.add)(
                Seq::new(
                    x.shape[1] as nat,
                    |p: int|
                        (
                            (m.val)(x.data[i * x.shape[1] + p]),
                            (m.val)(layer.weight.data[p * n + j]),
                        ),
                ).fold_left(
                    m.zero,
                    |s: int, t: (int, int)|
                        if (m.null)(t.0) {
                            s
                        } else {
                            (m.add)(s, (m.mul)(t.0, t.1))
                        },
                ),
                bias,
            )
            &&& exact(m) ==> (m.val)(y.data[i * n + j]) == Seq::new(
                x.shape[1] as nat,
                |p: int|
                    (m.val)(x.data[i * x.shape[1] + p]) * (m.val)(layer.weight.data[p * n + j]),
            ).fold_left(0, |s: int, t: int| s + t) + bias
        }),
{
    let w = layer.weight;
    let n = w.shape[1] as int;
    let xw = choose|xw: TensorView<S>| #[trigger]
        matmul_gives(x, w, xw) && add_gives(xw, layer.bias, y);
    matmul_sums_products(m, x, w, xw, i, j);
    lemma_cell_inside(x.shape[0] as nat, n as nat, i, j);
    let p = i * n + j;
    add_adds_elements(m, xw, layer.bias, y, p);
    if layer.bias.shape.len() == 1 {
        assert(xw.shape.len() == 2);
        assert(p % n == j) by {
            vstd::arithmetic::div_mod::lemma_fundamental_div_mod_converse(p, n, i, j);
        }
    }
}

} // verus!
