//! Identities of the tensor operations. What they ask of the element
//! operations is said of each: by `eq`, two elements agree; a `null` element
//! counts as zero.
use vstd::prelude::*;

use crate::alike::{alike, free_of, seq_alike};
use crate::alike::{alike_without_nan_is_same, lemma_alike, lemma_cells_alike};
use crate::determinism::{
    add_is_deterministic, lemma_runs_alike, matmul_is_deterministic, softmax_of_same_exponentials,
    sum_is_deterministic,
};
use crate::grid::{lemma_cell_inside, lemma_place_cell, row};
use crate::reduce::{
    distance_gives, distance_via, dot_gives, dot_step, peak_gives, relu_elem_gives,
    shifted_exp_gives, softmax_gives, softmax_via, square_diff_gives, sum_gives,
};
use crate::scalar::{
    exp_gives, from_u64_gives, is_zero_gives, maximum_gives, minus_gives, neg_infinity_gives,
    over_gives, plus_gives, respects, same_but_for, sqrt_gives, times_gives, zero_gives,
};
use crate::scalar::Scalar;
use crate::shape::{lemma_product_1, lemma_product_2, product};
use crate::tensor::{
    add_gives, gathered, holds, inbox, matmul_gives, relu_gives, scatter_gives,
    softmax_lastdim_gives,
};
use crate::tensor::TensorView;

verus! {

// ---------- softmax ----------

/// The elements of two rows, each less the maximum of its row, agree.
pub open spec fn same_shifts<S: Scalar>(
    eq: spec_fn(S, S) -> bool,
    xs: Seq<S>,
    ys: Seq<S>,
) -> bool {
    &&& xs.len() == ys.len()
    &&& forall|m: S, k: S, c: int, d: S, e: S|
        {
            &&& #[trigger] peak_gives(xs, m)
            &&& #[trigger] peak_gives(ys, k)
            &&& 0 <= c < xs.len()
            &&& #[trigger] minus_gives(xs[c], m, d)
            &&& #[trigger] minus_gives(ys[c], k, e)
        } ==> eq(d, e)
}

/// Rows that lie equally far below their maxima have one softmax.
pub proof fn shifted_rows_have_one_softmax<S: Scalar>(
    eq: spec_fn(S, S) -> bool,
    xs: Seq<S>,
    r: Seq<S>,
    ys: Seq<S>,
    q: Seq<S>,
)
    requires
        respects(eq),
        same_shifts(eq, xs, ys),
        softmax_gives(xs, r),
        softmax_gives(ys, q),
    ensures
        seq_alike(eq, r, q),
{
    let (m, exps, total) = choose|m: S, exps: Seq<S>, total: S| #[trigger]
        softmax_via(xs, r, m, exps, total);
    let (k, exps2, total2) = choose|m: S, exps: Seq<S>, total: S| #[trigger]
        softmax_via(ys, q, m, exps, total);
    assert forall|c: int| 0 <= c < exps.len() implies eq(#[trigger] exps[c], exps2[c]) by {
        assert(shifted_exp_gives(xs[c], m, exps[c]));
        assert(shifted_exp_gives(ys[c], k, exps2[c]));
        let d = choose|d: S| minus_gives(xs[c], m, d) && #[trigger] exp_gives(d, exps[c]);
        let e = choose|e: S| minus_gives(ys[c], k, e) && #[trigger] exp_gives(e, exps2[c]);
        assert(eq(d, e));
    }
    softmax_of_same_exponentials(eq, xs, r, m, exps, total, ys, q, k, exps2, total2);
}

/// Softmax is stable: tensors whose rows lie equally far below their maxima,
/// such as a row and the row with a constant added, have one softmax.
pub proof fn softmax_ignores_shifts<S: Scalar>(
    eq: spec_fn(S, S) -> bool,
    a: TensorView<S>,
    r: TensorView<S>,
    b: TensorView<S>,
    q: TensorView<S>,
)
    requires
        respects(eq),
        a.shape == b.shape,
        a.shape.len() > 0,
        softmax_lastdim_gives(a, r),
        softmax_lastdim_gives(b, q),
        forall|i: int|
            0 <= i < product(a.shape.drop_last()) ==> same_shifts(
                eq,
                #[trigger] row(a.data, a.shape.last() as nat, i),
                row(b.data, a.shape.last() as nat, i),
            ),
    ensures
        alike(eq, r, q),
{
    let cols = a.shape.last() as nat;
    assert forall|i: int| 0 <= i < product(a.shape.drop_last()) implies seq_alike(
        eq,
        #[trigger] row(r.data, cols, i),
        row(q.data, cols, i),
    ) by {
        let xs = row(a.data, cols, i);
        let ys = row(b.data, cols, i);
        assert(same_shifts(eq, xs, ys));
        assert(softmax_gives(ys, row(q.data, cols, i)));
        shifted_rows_have_one_softmax(eq, xs, row(r.data, cols, i), ys, row(q.data, cols, i));
    }
    lemma_runs_alike(eq, r, q);
}

/// Classes of elements by which the range of a softmax is told.
#[verifier::reject_recursive_types(S)]
pub struct Ranges<S> {
    /// A number: neither infinite nor NaN.
    pub finite: spec_fn(S) -> bool,
    /// Where an element stands in the order of numbers.
    pub key: spec_fn(S) -> int,
    /// Zero.
    pub null: spec_fn(S) -> bool,
    /// Zero or less, infinity included.
    pub low: spec_fn(S) -> bool,
    /// From zero to one.
    pub unit: spec_fn(S) -> bool,
    /// One.
    pub one: spec_fn(S) -> bool,
    /// A number, zero or more.
    pub part: spec_fn(S) -> bool,
    /// A number, one or more.
    pub whole: spec_fn(S) -> bool,
}

/// The larger of two numbers is one of them and below neither; numbers are
/// above the start of a running maximum.
pub open spec fn maxima_are_ordered<S: Scalar>(c: Ranges<S>) -> bool {
    &&& forall|s: S, x: S, r: S|
        ((c.finite)(s) || neg_infinity_gives(s)) && (c.finite)(x) && #[trigger] maximum_gives(
            s,
            x,
            r,
        ) ==> (r == s || r == x) && (c.key)(r) >= (c.key)(s) && (c.key)(r) >= (c.key)(x)
    &&& forall|s: S, x: S| #[trigger]
        neg_infinity_gives(s) && #[trigger] (c.finite)(x) ==> (c.key)(s) < (c.key)(x)
}

/// The range of each operation of a softmax: a number less one that is not
/// below it is low, and less itself null; the exponential of a low element is
/// from zero to one, and that of a null one is one; sums of such elements are
/// numbers, and one or more once a one is among them; what is from zero to one
/// stays so over one or more.
pub open spec fn ranges_hold<S: Scalar>(c: Ranges<S>) -> bool {
    &&& maxima_are_ordered(c)
    &&& forall|x: S, m: S, d: S|
        (c.finite)(x) && (c.finite)(m) && (c.key)(x) <= (c.key)(m) && #[trigger] minus_gives(
            x,
            m,
            d,
        ) ==> (c.low)(d)
    &&& forall|x: S, d: S| (c.finite)(x) && #[trigger] minus_gives(x, x, d) ==> (c.null)(d)
    &&& forall|d: S, e: S| (c.low)(d) && #[trigger] exp_gives(d, e) ==> (c.unit)(e)
    &&& forall|d: S, e: S| (c.null)(d) && #[trigger] exp_gives(d, e) ==> (c.one)(e)
    &&& forall|z: S| #[trigger] zero_gives(z) ==> (c.part)(z)
    &&& forall|s: S, x: S, r: S|
        (c.part)(s) && (c.unit)(x) && #[trigger] plus_gives(s, x, r) ==> (c.part)(r)
    &&& forall|s: S, x: S, r: S|
        (c.part)(s) && (c.one)(x) && #[trigger] plus_gives(s, x, r) ==> (c.whole)(r)
    &&& forall|s: S, x: S, r: S|
        (c.whole)(s) && (c.unit)(x) && #[trigger] plus_gives(s, x, r) ==> (c.whole)(r)
    &&& forall|x: S, s: S, r: S|
        (c.unit)(x) && (c.whole)(s) && #[trigger] over_gives(x, s, r) ==> (c.unit)(r)
}

/// The maximum of numbers is one of them, and none is above it.
pub proof fn peak_is_an_element<S: Scalar>(c: Ranges<S>, xs: Seq<S>, m: S) -> (p: int)
    requires
        maxima_are_ordered(c),
        xs.len() > 0,
        forall|i: int| 0 <= i < xs.len() ==> (c.finite)(#[trigger] xs[i]),
        peak_gives(xs, m),
    ensures
        0 <= p < xs.len(),
        m == xs[p],
        forall|i: int| 0 <= i < xs.len() ==> (c.key)(#[trigger] xs[i]) <= (c.key)(m),
    decreases xs.len(),
{
    let rest = xs.drop_last();
    let last = xs.len() - 1;
    let s = choose|s: S| peak_gives(rest, s) && #[trigger] maximum_gives(s, xs.last(), m);
    assert((c.finite)(xs[last]));
    if rest.len() == 0 {
        assert(neg_infinity_gives(s));
        last
    } else {
        assert forall|i: int| 0 <= i < rest.len() implies (c.finite)(#[trigger] rest[i]) by {
            assert((c.finite)(xs[i]));
        }
        let p = peak_is_an_element(c, rest, s);
        assert((c.finite)(xs[p]));
        assert forall|i: int| 0 <= i < xs.len() implies (c.key)(#[trigger] xs[i]) <= (c.key)(
            m,
        ) by {
            if i < last {
                assert(xs[i] == rest[i]);
            }
        }
        if m == s {
            p
        } else {
            last
        }
    }
}

proof fn lemma_sum_range<S: Scalar>(c: Ranges<S>, xs: Seq<S>, p: int, r: S)
    requires
        ranges_hold(c),
        forall|i: int| 0 <= i < xs.len() ==> (c.unit)(#[trigger] xs[i]),
        0 <= p < xs.len() ==> (c.one)(xs[p]),
        sum_gives(xs, r),
    ensures
        if 0 <= p < xs.len() {
            (c.whole)(r)
        } else {
            (c.part)(r)
        },
    decreases xs.len(),
{
    if xs.len() > 0 {
        let rest = xs.drop_last();
        let s = choose|s: S| sum_gives(rest, s) && #[trigger] plus_gives(s, xs.last(), r);
        assert forall|i: int| 0 <= i < rest.len() implies (c.unit)(#[trigger] rest[i]) by {
            assert((c.unit)(xs[i]));
        }
        lemma_sum_range(c, rest, p, s);
        assert((c.unit)(xs[xs.len() - 1]));
    }
}

/// A row of numbers, however large, has a softmax from zero to one: by way of
/// exponentials from zero to one, of which one is one, and a sum of one or
/// more.
pub proof fn softmax_row_stays_in_range<S: Scalar>(c: Ranges<S>, xs: Seq<S>, ys: Seq<S>)
    requires
        ranges_hold(c),
        forall|i: int| 0 <= i < xs.len() ==> (c.finite)(#[trigger] xs[i]),
        softmax_gives(xs, ys),
    ensures
        ys.len() == xs.len(),
        forall|i: int| 0 <= i < ys.len() ==> (c.unit)(#[trigger] ys[i]),
{
    let (m, exps, total) = choose|m: S, exps: Seq<S>, total: S| #[trigger]
        softmax_via(xs, ys, m, exps, total);
    if xs.len() > 0 {
        let p = peak_is_an_element(c, xs, m);
        assert((c.finite)(xs[p]));
        assert forall|i: int| 0 <= i < exps.len() implies (c.unit)(#[trigger] exps[i]) by {
            assert((c.finite)(xs[i]));
            assert(shifted_exp_gives(xs[i], m, exps[i]));
        }
        assert(shifted_exp_gives(xs[p], m, exps[p]));
        lemma_sum_range(c, exps, p, total);
        assert forall|i: int| 0 <= i < ys.len() implies (c.unit)(#[trigger] ys[i]) by {
            assert(over_gives(exps[i], total, ys[i]));
            assert((c.unit)(exps[i]));
        }
    }
}

/// Softmax is stable: a tensor of numbers, however large, has a softmax whose
/// elements all lie from zero to one, so that none is infinite or NaN.
pub proof fn softmax_stays_in_range<S: Scalar>(c: Ranges<S>, a: TensorView<S>, r: TensorView<S>)
    requires
        ranges_hold(c),
        a.dense(),
        a.shape.len() > 0,
        forall|i: int| 0 <= i < a.data.len() ==> (c.finite)(#[trigger] a.data[i]),
        softmax_lastdim_gives(a, r),
    ensures
        forall|i: int| 0 <= i < r.data.len() ==> (c.unit)(#[trigger] r.data[i]),
{
    let cols = a.shape.last() as nat;
    let rows = product(a.shape.drop_last());
    assert forall|p: int| 0 <= p < r.data.len() implies (c.unit)(#[trigger] r.data[p]) by {
        lemma_place_cell(rows, cols, p);
        let i = p / (cols as int);
        let j = p % (cols as int);
        let xs = row(a.data, cols, i);
        let ys = row(r.data, cols, i);
        assert forall|k: int| 0 <= k < xs.len() implies (c.finite)(#[trigger] xs[k]) by {
            lemma_cell_inside(rows, cols, i, k);
            assert(xs[k] == a.data[i * cols + k]);
        }
        softmax_row_stays_in_range(c, xs, ys);
        assert((c.unit)(ys[j]));
    }
}

// ---------- matmul ----------

/// Rows of a product are products of rows: gathering rows of a product is one
/// way to multiply the gathered rows.
pub proof fn gathered_product_is_product<S: Scalar>(
    a: TensorView<S>,
    b: TensorView<S>,
    index: Seq<usize>,
    rows: TensorView<S>,
    ab: TensorView<S>,
    q: TensorView<S>,
)
    requires
        a.matrix(),
        b.matrix(),
        forall|e: int| 0 <= e < index.len() ==> index[e] < a.shape[0],
        gathered(a, index, rows),
        matmul_gives(a, b, ab),
        gathered(ab, index, q),
    ensures
        matmul_gives(rows, b, q),
{
    assert(q.shape =~= seq![rows.shape[0], b.shape[1]]);
    assert forall|i: int, j: int| 0 <= i < rows.shape[0] && 0 <= j < b.shape[1] implies dot_gives(
        rows.row(i),
        b.column(j),
        rows.shape[1] as nat,
        #[trigger] q.at(i, j),
    ) by {
        let e = index[i] as int;
        assert(q.at(i, j) == ab.at(e, j));
        assert(dot_gives(a.row(e), b.column(j), a.shape[1] as nat, ab.at(e, j)));
        assert forall|p: int| 0 <= p < a.shape[1] implies rows.row(i)[p] == a.row(e)[p] by {
            assert(rows.at(i, p) == a.at(e, p));
        }
        assert(rows.row(i) =~= a.row(e));
    }
}

/// Gathering and multiplying commute: each row of a product depends only on
/// its own row of the left factor and on the right factor.
pub proof fn gather_commutes_with_matmul<S: Scalar>(
    eq: spec_fn(S, S) -> bool,
    a: TensorView<S>,
    b: TensorView<S>,
    index: Seq<usize>,
    rows: TensorView<S>,
    r: TensorView<S>,
    ab: TensorView<S>,
    q: TensorView<S>,
)
    requires
        respects(eq),
        a.matrix(),
        b.matrix(),
        a.shape[1] == b.shape[0],
        forall|e: int| 0 <= e < index.len() ==> index[e] < a.shape[0],
        gathered(a, index, rows),
        matmul_gives(rows, b, r),
        matmul_gives(a, b, ab),
        gathered(ab, index, q),
    ensures
        alike(eq, r, q),
{
    gathered_product_is_product(a, b, index, rows, ab, q);
    matmul_is_deterministic(eq, rows, b, r, rows, b, q);
}

/// Gathering and multiplying commute bit for bit where the operations differ
/// in NaN only and there is none in the result.
pub proof fn gathered_product_has_the_same_bits<S: Scalar>(
    nan: spec_fn(S) -> bool,
    a: TensorView<S>,
    b: TensorView<S>,
    index: Seq<usize>,
    rows: TensorView<S>,
    r: TensorView<S>,
    ab: TensorView<S>,
    q: TensorView<S>,
)
    requires
        respects(same_but_for(nan)),
        a.matrix(),
        b.matrix(),
        a.shape[1] == b.shape[0],
        forall|e: int| 0 <= e < index.len() ==> index[e] < a.shape[0],
        gathered(a, index, rows),
        matmul_gives(rows, b, r),
        matmul_gives(a, b, ab),
        gathered(ab, index, q),
        free_of(nan, r.data),
    ensures
        r == q,
{
    gather_commutes_with_matmul(same_but_for(nan), a, b, index, rows, r, ab, q);
    alike_without_nan_is_same(nan, r, q);
}

/// The matrix with ones on the diagonal and zeros elsewhere.
pub open spec fn identity_gives<S: Scalar>(e: TensorView<S>, n: nat) -> bool {
    &&& e.matrix()
    &&& e.shape[0] == n
    &&& e.shape[1] == n
    &&& forall|i: int, j: int|
        0 <= i < n && 0 <= j < n ==> if i == j {
            from_u64_gives(1, #[trigger] e.at(i, j))
        } else {
            zero_gives(e.at(i, j))
        }
}

/// Zeros and ones act on `null` elements as they should: zeros are null and
/// known as zero, ones are not, and null elements add up to null ones.
pub open spec fn counts_as_zero<S: Scalar>(null: spec_fn(S) -> bool) -> bool {
    &&& forall|z: S| #[trigger] zero_gives(z) ==> null(z)
    &&& forall|z: S, b: bool| zero_gives(z) && #[trigger] is_zero_gives(z, b) ==> b
    &&& forall|o: S, b: bool| from_u64_gives(1, o) && #[trigger] is_zero_gives(o, b) ==> !b
    &&& forall|s: S, t: S, r: S| null(s) && null(t) && #[trigger] plus_gives(s, t, r) ==> null(r)
}

/// Zeros and ones act on the element `x` as they should: times a zero it is
/// null, times a one it is itself, null elements add nothing to it, and if it
/// is known as zero it agrees with null elements.
pub open spec fn has_units<S: Scalar>(
    eq: spec_fn(S, S) -> bool,
    null: spec_fn(S) -> bool,
    x: S,
) -> bool {
    &&& forall|z: S, t: S| zero_gives(z) && #[trigger] times_gives(x, z, t) ==> null(t)
    &&& forall|o: S, t: S| from_u64_gives(1, o) && #[trigger] times_gives(x, o, t) ==> eq(t, x)
    &&& forall|o: S, t: S| from_u64_gives(1, o) && #[trigger] times_gives(o, x, t) ==> eq(t, x)
    &&& forall|s: S, t: S, r: S|
        null(s) && eq(t, x) && #[trigger] plus_gives(s, t, r) ==> eq(r, x)
    &&& forall|s: S, t: S, r: S|
        eq(s, x) && null(t) && #[trigger] plus_gives(s, t, r) ==> eq(r, x)
    &&& forall|s: S| is_zero_gives(x, true) && #[trigger] null(s) ==> eq(s, x)
}

/// A row times a column of the identity: null up to the one, then the element
/// there.
proof fn lemma_dot_with_unit_column<S: Scalar>(
    eq: spec_fn(S, S) -> bool,
    null: spec_fn(S) -> bool,
    xs: Seq<S>,
    e: TensorView<S>,
    size: nat,
    j: int,
    n: nat,
    r: S,
)
    requires
        counts_as_zero(null),
        forall|p: int| 0 <= p < xs.len() ==> has_units(eq, null, #[trigger] xs[p]),
        identity_gives(e, size),
        xs.len() == size,
        0 <= j < size,
        n <= size,
        dot_gives(xs, e.column(j), n, r),
    ensures
        n <= j ==> null(r),
        n > j ==> eq(r, xs[j]),
    decreases n,
{
    if n > 0 {
        let ys = e.column(j);
        let m = (n - 1) as nat;
        let s = choose|s: S|
            dot_gives(xs, ys, m, s) && #[trigger] dot_step(s, xs[n - 1], ys[n - 1], r);
        lemma_dot_with_unit_column(eq, null, xs, e, size, j, m, s);
        let x = xs[m as int];
        assert(ys[m as int] == e.at(m as int, j));
        assert(has_units(eq, null, x) && has_units(eq, null, xs[j]));
    }
}

/// A row of the identity times a column: null up to the one, then the element
/// there.
proof fn lemma_dot_with_unit_row<S: Scalar>(
    eq: spec_fn(S, S) -> bool,
    null: spec_fn(S) -> bool,
    e: TensorView<S>,
    size: nat,
    i: int,
    ys: Seq<S>,
    n: nat,
    r: S,
)
    requires
        counts_as_zero(null),
        forall|p: int| 0 <= p < ys.len() ==> has_units(eq, null, #[trigger] ys[p]),
        identity_gives(e, size),
        ys.len() == size,
        0 <= i < size,
        n <= size,
        dot_gives(e.row(i), ys, n, r),
    ensures
        n <= i ==> null(r),
        n > i ==> eq(r, ys[i]),
    decreases n,
{
    if n > 0 {
        let xs = e.row(i);
        let m = (n - 1) as nat;
        let s = choose|s: S|
            dot_gives(xs, ys, m, s) && #[trigger] dot_step(s, xs[n - 1], ys[n - 1], r);
        lemma_dot_with_unit_row(eq, null, e, size, i, ys, m, s);
        assert(xs[m as int] == e.at(i, m as int));
        assert(has_units(eq, null, ys[m as int]));
    }
}

/// A matrix times the identity is the matrix, from either side.
pub proof fn identity_changes_nothing<S: Scalar>(
    eq: spec_fn(S, S) -> bool,
    null: spec_fn(S) -> bool,
    a: TensorView<S>,
    right: TensorView<S>,
    r: TensorView<S>,
    left: TensorView<S>,
    q: TensorView<S>,
)
    requires
        counts_as_zero(null),
        a.matrix(),
        forall|i: int, j: int|
            0 <= i < a.shape[0] && 0 <= j < a.shape[1] ==> has_units(
                eq,
                null,
                #[trigger] a.at(i, j),
            ),
        identity_gives(right, a.shape[1] as nat),
        matmul_gives(a, right, r),
        identity_gives(left, a.shape[0] as nat),
        matmul_gives(left, a, q),
    ensures
        r.shape == a.shape,
        seq_alike(eq, r.data, a.data),
        q.shape == a.shape,
        seq_alike(eq, q.data, a.data),
{
    assert(r.shape =~= a.shape);
    assert(q.shape =~= a.shape);
    assert forall|i: int, j: int| 0 <= i < a.shape[0] && 0 <= j < a.shape[1] implies eq(
        #[trigger] r.at(i, j),
        a.at(i, j),
    ) by {
        let xs = a.row(i);
        assert forall|p: int| 0 <= p < xs.len() implies has_units(eq, null, #[trigger] xs[p]) by {
            assert(xs[p] == a.at(i, p));
        }
        lemma_dot_with_unit_column(eq, null, xs, right, xs.len(), j, xs.len(), r.at(i, j));
    }
    lemma_cells_alike(eq, r, a);
    assert forall|i: int, j: int| 0 <= i < a.shape[0] && 0 <= j < a.shape[1] implies eq(
        #[trigger] q.at(i, j),
        a.at(i, j),
    ) by {
        let ys = a.column(j);
        assert forall|p: int| 0 <= p < ys.len() implies has_units(eq, null, #[trigger] ys[p]) by {
            assert(ys[p] == a.at(p, j));
        }
        lemma_dot_with_unit_row(eq, null, left, ys.len(), i, ys, ys.len(), q.at(i, j));
    }
    lemma_cells_alike(eq, q, a);
}

// ---------- graph primitives ----------

proof fn lemma_single_message<S: Scalar>(
    t: TensorView<S>,
    index: Seq<usize>,
    e: int,
    f: int,
    n: nat,
)
    requires
        0 <= e < index.len(),
        n <= index.len(),
        forall|a: int, b: int| 0 <= a < b < index.len() ==> index[a] != index[b],
    ensures
        inbox(t, index, index[e] as int, f, n) == if e < n {
            seq![t.at(e, f)]
        } else {
            Seq::empty()
        },
    decreases n,
{
    if n > 0 {
        lemma_single_message(t, index, e, f, (n - 1) as nat);
        if n - 1 == e {
            assert(Seq::<S>::empty().push(t.at(e, f)) =~= seq![t.at(e, f)]);
        }
    }
}

/// Gathering undoes scattering to distinct nodes, where a zero adds nothing to
/// the elements.
pub proof fn gather_undoes_scatter<S: Scalar>(
    eq: spec_fn(S, S) -> bool,
    t: TensorView<S>,
    index: Seq<usize>,
    num_nodes: nat,
    s: TensorView<S>,
    g: TensorView<S>,
)
    requires
        t.matrix(),
        index.len() == t.shape[0],
        forall|e: int| 0 <= e < index.len() ==> index[e] < num_nodes,
        forall|a: int, b: int| 0 <= a < b < index.len() ==> index[a] != index[b],
        forall|e: int, f: int, z: S, r: S|
            {
                &&& 0 <= e < t.shape[0]
                &&& 0 <= f < t.shape[1]
                &&& zero_gives(z)
                &&& #[trigger] plus_gives(z, #[trigger] t.at(e, f), r)
            } ==> eq(r, t.at(e, f)),
        scatter_gives(t, index, num_nodes, s),
        gathered(s, index, g),
    ensures
        g.shape == t.shape,
        seq_alike(eq, g.data, t.data),
{
    assert(g.shape =~= t.shape);
    assert forall|e: int, f: int| 0 <= e < g.shape[0] && 0 <= f < g.shape[1] implies eq(
        #[trigger] g.at(e, f),
        t.at(e, f),
    ) by {
        let node = index[e] as int;
        let x = t.at(e, f);
        assert(g.at(e, f) == s.at(node, f));
        assert(sum_gives(inbox(t, index, node, f, index.len()), s.at(node, f)));
        lemma_single_message(t, index, e, f, index.len());
        let only = seq![x];
        assert(only.drop_last() =~= Seq::<S>::empty());
        let z = choose|z: S|
            sum_gives(only.drop_last(), z) && #[trigger] plus_gives(z, only.last(), s.at(node, f));
        assert(plus_gives(z, t.at(e, f), s.at(node, f)));
    }
    lemma_cells_alike(eq, g, t);
}

// ---------- add ----------

/// Adding a row to a matrix is adding the matrix whose rows are that row.
pub proof fn broadcast_is_gathered_row<S: Scalar>(
    x: TensorView<S>,
    b: TensorView<S>,
    one_row: TensorView<S>,
    index: Seq<usize>,
    rows: TensorView<S>,
    r: TensorView<S>,
)
    requires
        x.matrix(),
        b.dense(),
        b.shape.len() == 1,
        b.shape[0] == x.shape[1],
        holds(one_row, b.data, seq![1, x.shape[1]]),
        index.len() == x.shape[0],
        forall|e: int| 0 <= e < index.len() ==> index[e] == 0,
        gathered(one_row, index, rows),
    ensures
        add_gives(x, b, r) <==> add_gives(x, rows, r),
{
    assert(rows.shape =~= x.shape);
    assert(b.shape.len() != x.shape.len());
    lemma_product_1(b.shape);
    lemma_product_2(x.shape);
    let cols = x.shape[1] as nat;
    assert forall|i: int, j: int| 0 <= i < x.shape[0] && 0 <= j < cols implies #[trigger] rows.at(
        i,
        j,
    ) == b.data[j] by {
        assert(rows.at(i, j) == one_row.at(index[i] as int, j));
        assert(0 * cols == 0) by (nonlinear_arith);
    }
    if add_gives(x, b, r) {
        assert forall|p: int| 0 <= p < x.data.len() implies plus_gives(
            x.data[p],
            rows.data[p],
            #[trigger] r.data[p],
        ) by {
            lemma_place_cell(x.shape[0] as nat, cols, p);
            let i = p / (cols as int);
            let j = p % (cols as int);
            assert(plus_gives(x.at(i, j), b.data[j], r.at(i, j)));
            assert(rows.at(i, j) == b.data[j]);
        }
    }
    if add_gives(x, rows, r) {
        assert forall|i: int, j: int| 0 <= i < x.shape[0] && 0 <= j < cols implies plus_gives(
            x.at(i, j),
            b.data[j],
            #[trigger] r.at(i, j),
        ) by {
            lemma_cell_inside(x.shape[0] as nat, cols, i, j);
            let p = i * cols + j;
            assert(plus_gives(x.data[p], rows.data[p], r.data[p]));
            assert(rows.at(i, j) == b.data[j]);
        }
    }
}

/// Adding a row to a matrix and adding the matrix whose rows are that row agree.
pub proof fn broadcast_agrees_with_gathered_row<S: Scalar>(
    eq: spec_fn(S, S) -> bool,
    x: TensorView<S>,
    b: TensorView<S>,
    one_row: TensorView<S>,
    index: Seq<usize>,
    rows: TensorView<S>,
    r: TensorView<S>,
    q: TensorView<S>,
)
    requires
        respects(eq),
        x.matrix(),
        b.dense(),
        b.shape.len() == 1,
        b.shape[0] == x.shape[1],
        holds(one_row, b.data, seq![1, x.shape[1]]),
        index.len() == x.shape[0],
        forall|e: int| 0 <= e < index.len() ==> index[e] == 0,
        gathered(one_row, index, rows),
        add_gives(x, b, r),
        add_gives(x, rows, q),
    ensures
        alike(eq, r, q),
{
    broadcast_is_gathered_row(x, b, one_row, index, rows, q);
    add_is_deterministic(eq, x, b, r, x, b, q);
}

/// Adding commutes where it does for the elements.
pub proof fn add_commutes<S: Scalar>(
    eq: spec_fn(S, S) -> bool,
    a: TensorView<S>,
    b: TensorView<S>,
    r: TensorView<S>,
    q: TensorView<S>,
)
    requires
        a.dense(),
        b.dense(),
        a.shape == b.shape,
        forall|i: int, s: S, t: S|
            {
                &&& 0 <= i < a.data.len()
                &&& #[trigger] plus_gives(a.data[i], b.data[i], s)
                &&& #[trigger] plus_gives(b.data[i], a.data[i], t)
            } ==> eq(s, t),
        add_gives(a, b, r),
        add_gives(b, a, q),
    ensures
        alike(eq, r, q),
{
    assert forall|i: int| 0 <= i < r.data.len() implies eq(#[trigger] r.data[i], q.data[i]) by {
        assert(plus_gives(a.data[i], b.data[i], r.data[i]));
        assert(plus_gives(b.data[i], a.data[i], q.data[i]));
    }
    lemma_alike(eq, r, q);
}

// ---------- relu ----------

/// The larger of an element and zero is the element where that is positive,
/// and null otherwise; null elements are not positive.
pub open spec fn splits_at_zero<S: Scalar>(
    positive: spec_fn(S) -> bool,
    null: spec_fn(S) -> bool,
) -> bool {
    &&& forall|x: S, z: S, r: S|
        zero_gives(z) && #[trigger] maximum_gives(x, z, r) ==> if positive(x) {
            r == x
        } else {
            null(r)
        }
    &&& forall|x: S| #[trigger] null(x) ==> !positive(x)
}

/// ReLU keeps positive elements and makes all others null.
pub proof fn relu_keeps_positive_elements<S: Scalar>(
    positive: spec_fn(S) -> bool,
    null: spec_fn(S) -> bool,
    a: TensorView<S>,
    r: TensorView<S>,
    i: int,
)
    requires
        splits_at_zero(positive, null),
        a.dense(),
        relu_gives(a, r),
        0 <= i < a.data.len(),
    ensures
        if positive(a.data[i]) {
            r.data[i] == a.data[i]
        } else {
            null(r.data[i])
        },
{
    assert(relu_elem_gives(a.data[i], r.data[i]));
}

/// A second ReLU changes nothing but which null element stands for zero.
pub proof fn relu_is_idempotent<S: Scalar>(
    positive: spec_fn(S) -> bool,
    null: spec_fn(S) -> bool,
    a: TensorView<S>,
    r: TensorView<S>,
    q: TensorView<S>,
)
    requires
        splits_at_zero(positive, null),
        a.dense(),
        relu_gives(a, r),
        relu_gives(r, q),
    ensures
        alike(|x: S, y: S| x == y || (null(x) && null(y)), r, q),
{
    let eq = |x: S, y: S| x == y || (null(x) && null(y));
    assert forall|i: int| 0 <= i < r.data.len() implies eq(#[trigger] r.data[i], q.data[i]) by {
        relu_keeps_positive_elements(positive, null, a, r, i);
        relu_keeps_positive_elements(positive, null, r, q, i);
    }
    lemma_alike(eq, r, q);
}

// ---------- distance ----------

/// The distance is the same both ways where a difference squared is.
pub proof fn distance_is_symmetric<S: Scalar>(
    eq: spec_fn(S, S) -> bool,
    xs: Seq<S>,
    ys: Seq<S>,
    r: S,
    q: S,
)
    requires
        respects(eq),
        xs.len() == ys.len(),
        forall|a: S, b: S, d: S, e: S, s: S, t: S|
            {
                &&& #[trigger] minus_gives(a, b, d)
                &&& #[trigger] minus_gives(b, a, e)
                &&& #[trigger] times_gives(d, d, s)
                &&& #[trigger] times_gives(e, e, t)
            } ==> eq(s, t),
        distance_gives(xs, ys, r),
        distance_gives(ys, xs, q),
    ensures
        eq(r, q),
{
    let (sq, total) = choose|sq: Seq<S>, total: S| #[trigger]
        distance_via(xs, ys, sq, total, r);
    let (sq2, total2) = choose|sq: Seq<S>, total: S| #[trigger]
        distance_via(ys, xs, sq, total, q);
    assert forall|i: int| 0 <= i < sq.len() implies eq(#[trigger] sq[i], sq2[i]) by {
        assert(square_diff_gives(xs[i], ys[i], sq[i]));
        assert(square_diff_gives(ys[i], xs[i], sq2[i]));
        let d = choose|d: S| minus_gives(xs[i], ys[i], d) && #[trigger] times_gives(d, d, sq[i]);
        let e = choose|e: S| minus_gives(ys[i], xs[i], e) && #[trigger] times_gives(e, e, sq2[i]);
        assert(times_gives(d, d, sq[i]) && times_gives(e, e, sq2[i]));
    }
    sum_is_deterministic(eq, sq, sq2, total, total2);
}

/// Zero, sums and roots of elements in a class are in the class.
pub open spec fn closed_under_sums_and_roots<S: Scalar>(class: spec_fn(S) -> bool) -> bool {
    &&& forall|z: S| #[trigger] zero_gives(z) ==> class(z)
    &&& forall|s: S, t: S, r: S|
        class(s) && class(t) && #[trigger] plus_gives(s, t, r) ==> class(r)
    &&& forall|s: S, r: S| class(s) && #[trigger] sqrt_gives(s, r) ==> class(r)
}

proof fn lemma_sum_in_class<S: Scalar>(class: spec_fn(S) -> bool, xs: Seq<S>, r: S)
    requires
        closed_under_sums_and_roots(class),
        forall|i: int| 0 <= i < xs.len() ==> class(#[trigger] xs[i]),
        sum_gives(xs, r),
    ensures
        class(r),
    decreases xs.len(),
{
    if xs.len() > 0 {
        let s = choose|s: S|
            sum_gives(xs.drop_last(), s) && #[trigger] plus_gives(s, xs.last(), r);
        lemma_sum_in_class(class, xs.drop_last(), s);
        assert(class(xs[xs.len() - 1]));
    }
}

/// A distance is in a class that holds the squared differences and is closed
/// under sums and roots: it is not negative where squares are not.
pub proof fn distance_is_in_class<S: Scalar>(
    class: spec_fn(S) -> bool,
    xs: Seq<S>,
    ys: Seq<S>,
    r: S,
)
    requires
        closed_under_sums_and_roots(class),
        forall|i: int, s: S|
            0 <= i < xs.len() && #[trigger] square_diff_gives(xs[i], ys[i], s) ==> class(s),
        distance_gives(xs, ys, r),
    ensures
        class(r),
{
    let (sq, total) = choose|sq: Seq<S>, total: S| #[trigger]
        distance_via(xs, ys, sq, total, r);
    assert forall|i: int| 0 <= i < sq.len() implies class(#[trigger] sq[i]) by {
        assert(square_diff_gives(xs[i], ys[i], sq[i]));
    }
    lemma_sum_in_class(class, sq, total);
}

/// The distance of a list from itself is null where an element less itself is,
/// and null elements are closed under squares, sums and roots.
pub proof fn distance_from_itself_is_zero<S: Scalar>(null: spec_fn(S) -> bool, xs: Seq<S>, r: S)
    requires
        closed_under_sums_and_roots(null),
        forall|i: int, d: S|
            0 <= i < xs.len() && #[trigger] minus_gives(xs[i], xs[i], d) ==> null(d),
        forall|d: S, s: S| null(d) && #[trigger] times_gives(d, d, s) ==> null(s),
        distance_gives(xs, xs, r),
    ensures
        null(r),
{
    assert forall|i: int, s: S|
        0 <= i < xs.len() && #[trigger] square_diff_gives(xs[i], xs[i], s) implies null(s) by {
        let d = choose|d: S| minus_gives(xs[i], xs[i], d) && #[trigger] times_gives(d, d, s);
        assert(null(d));
    }
    distance_is_in_class(null, xs, xs, r);
}

} // verus!
