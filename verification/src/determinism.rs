//! Same weights, same inputs, same bits: where two calls of an element
//! operation differ only by what an equivalence disregards, such as the payload
//! of a NaN, the same holds of everything built from them.
use vstd::prelude::*;

use crate::agreement::{max_diff_gives, wider_gives};
use crate::alike::{
    alike, alike_without_nan_is_same, free_of, layer_alike, layers_alike, lemma_alike,
    lemma_cell_alike, lemma_cells_alike, lemma_columns_alike, lemma_inbox_alike, lemma_rows_alike,
    seq_alike,
};
use crate::graph::{
    blend_elem_gives, blend_gives, complement_gives, edges_fit, halted, leads_to, not_below,
    round_gives, run_gives,
};
use crate::grid::{lemma_place_cell, row};
use crate::nn::{
    accepts_all, accepts_at, argmax_gives, argmax_rows_gives, argmax_rows_stuck, argmax_stuck, flow,
    fresh_linear_gives, he_scale_gives, layer_gives, layers_give, linear_gives, predict_gives,
    predict_via, scaled_normals_give,
};
use crate::nn::LinearView;
use crate::random::{
    angle_gives, draws_are_prefixes, normal_pair_gives, normals_give, polar_gives, radius_gives,
    seeds_zero_and_one_agree, state_after, uniform_gives,
};
use crate::reduce::{
    distance_gives, distance_via, dot_gives, dot_step, peak_gives, relu_elem_gives,
    shifted_exp_gives, softmax_gives, softmax_via, square_diff_gives, sum_gives,
};
use crate::rtw::Entry;
use crate::scalar::{
    from_bits_gives, maximum_gives, order_gives, over_gives, plus_gives, respects, same_but_for,
    times_gives, zero_gives,
};
use crate::scalar::{Order, Scalar};
use crate::shape::{lemma_product_1, lemma_product_2, product};
use crate::tensor::{
    add_gives, addable, gathered, inbox, matmul_gives, relu_gives, scatter_gives,
    softmax_lastdim_gives,
};
use crate::tensor::TensorView;
use crate::weights::entry_gives;

verus! {

/// Lists that agree have sums that agree.
pub proof fn sum_is_deterministic<S: Scalar>(
    eq: spec_fn(S, S) -> bool,
    xs: Seq<S>,
    ys: Seq<S>,
    r: S,
    q: S,
)
    requires
        respects(eq),
        seq_alike(eq, xs, ys),
        sum_gives(xs, r),
        sum_gives(ys, q),
    ensures
        eq(r, q),
    decreases xs.len(),
{
    if xs.len() > 0 {
        let s = choose|s: S|
            sum_gives(xs.drop_last(), s) && #[trigger] plus_gives(s, xs.last(), r);
        let t = choose|t: S|
            sum_gives(ys.drop_last(), t) && #[trigger] plus_gives(t, ys.last(), q);
        sum_is_deterministic(eq, xs.drop_last(), ys.drop_last(), s, t);
    }
}

/// Lists that agree have maxima that agree.
pub proof fn peak_is_deterministic<S: Scalar>(
    eq: spec_fn(S, S) -> bool,
    xs: Seq<S>,
    ys: Seq<S>,
    r: S,
    q: S,
)
    requires
        respects(eq),
        seq_alike(eq, xs, ys),
        peak_gives(xs, r),
        peak_gives(ys, q),
    ensures
        eq(r, q),
    decreases xs.len(),
{
    if xs.len() > 0 {
        let s = choose|s: S|
            peak_gives(xs.drop_last(), s) && #[trigger] maximum_gives(s, xs.last(), r);
        let t = choose|t: S|
            peak_gives(ys.drop_last(), t) && #[trigger] maximum_gives(t, ys.last(), q);
        peak_is_deterministic(eq, xs.drop_last(), ys.drop_last(), s, t);
    }
}

proof fn lemma_dot_step<S: Scalar>(
    eq: spec_fn(S, S) -> bool,
    s: S,
    x: S,
    y: S,
    r: S,
    s2: S,
    x2: S,
    y2: S,
    q: S,
)
    requires
        respects(eq),
        eq(s, s2),
        eq(x, x2),
        eq(y, y2),
        dot_step(s, x, y, r),
        dot_step(s2, x2, y2, q),
    ensures
        eq(r, q),
{
}

/// Lists that agree have dot products that agree.
pub proof fn dot_is_deterministic<S: Scalar>(
    eq: spec_fn(S, S) -> bool,
    xs: Seq<S>,
    ys: Seq<S>,
    r: S,
    xs2: Seq<S>,
    ys2: Seq<S>,
    q: S,
    n: nat,
)
    requires
        respects(eq),
        seq_alike(eq, xs, xs2),
        seq_alike(eq, ys, ys2),
        n <= xs.len(),
        n <= ys.len(),
        dot_gives(xs, ys, n, r),
        dot_gives(xs2, ys2, n, q),
    ensures
        eq(r, q),
    decreases n,
{
    if n > 0 {
        let m = (n - 1) as nat;
        let s = choose|s: S|
            dot_gives(xs, ys, m, s) && #[trigger] dot_step(s, xs[n - 1], ys[n - 1], r);
        let t = choose|t: S|
            dot_gives(xs2, ys2, m, t) && #[trigger] dot_step(t, xs2[n - 1], ys2[n - 1], q);
        dot_is_deterministic(eq, xs, ys, s, xs2, ys2, t, m);
        lemma_dot_step(eq, s, xs[n - 1], ys[n - 1], r, t, xs2[n - 1], ys2[n - 1], q);
    }
}

/// Tensors that agree have sums that agree.
pub proof fn add_is_deterministic<S: Scalar>(
    eq: spec_fn(S, S) -> bool,
    a: TensorView<S>,
    b: TensorView<S>,
    r: TensorView<S>,
    a2: TensorView<S>,
    b2: TensorView<S>,
    q: TensorView<S>,
)
    requires
        respects(eq),
        a.dense(),
        b.dense(),
        addable(a.shape, b.shape),
        alike(eq, a, a2),
        alike(eq, b, b2),
        add_gives(a, b, r),
        add_gives(a2, b2, q),
    ensures
        alike(eq, r, q),
{
    if a.shape == b.shape {
        assert forall|i: int| 0 <= i < r.data.len() implies eq(#[trigger] r.data[i], q.data[i]) by {
            assert(eq(a.data[i], a2.data[i]) && eq(b.data[i], b2.data[i]));
            assert(plus_gives(a.data[i], b.data[i], r.data[i]));
            assert(plus_gives(a2.data[i], b2.data[i], q.data[i]));
        }
        lemma_alike(eq, r, q);
    } else {
        lemma_product_1(b.shape);
        assert forall|i: int, j: int| 0 <= i < r.shape[0] && 0 <= j < r.shape[1] implies eq(
            #[trigger] r.at(i, j),
            q.at(i, j),
        ) by {
            lemma_cell_alike(eq, a, a2, i, j);
            assert(eq(b.data[j], b2.data[j]));
            assert(plus_gives(a.at(i, j), b.data[j], r.at(i, j)));
            assert(plus_gives(a2.at(i, j), b2.data[j], q.at(i, j)));
        }
        lemma_cells_alike(eq, r, q);
    }
}

/// Tensors that agree have ReLUs that agree.
pub proof fn relu_is_deterministic<S: Scalar>(
    eq: spec_fn(S, S) -> bool,
    a: TensorView<S>,
    r: TensorView<S>,
    a2: TensorView<S>,
    q: TensorView<S>,
)
    requires
        respects(eq),
        a.dense(),
        alike(eq, a, a2),
        relu_gives(a, r),
        relu_gives(a2, q),
    ensures
        alike(eq, r, q),
{
    assert forall|i: int| 0 <= i < r.data.len() implies eq(#[trigger] r.data[i], q.data[i]) by {
        assert(eq(a.data[i], a2.data[i]));
        assert(relu_elem_gives(a.data[i], r.data[i]));
        assert(relu_elem_gives(a2.data[i], q.data[i]));
    }
    lemma_alike(eq, r, q);
}

/// Lists that agree have softmaxes that agree.
pub proof fn softmax_row_is_deterministic<S: Scalar>(
    eq: spec_fn(S, S) -> bool,
    xs: Seq<S>,
    r: Seq<S>,
    ys: Seq<S>,
    q: Seq<S>,
)
    requires
        respects(eq),
        seq_alike(eq, xs, ys),
        softmax_gives(xs, r),
        softmax_gives(ys, q),
    ensures
        seq_alike(eq, r, q),
{
    let (m, exps, total) = choose|m: S, exps: Seq<S>, total: S| #[trigger]
        softmax_via(xs, r, m, exps, total);
    let (m2, exps2, total2) = choose|m: S, exps: Seq<S>, total: S| #[trigger]
        softmax_via(ys, q, m, exps, total);
    peak_is_deterministic(eq, xs, ys, m, m2);
    assert forall|c: int| 0 <= c < xs.len() implies eq(#[trigger] exps[c], exps2[c]) by {
        assert(eq(xs[c], ys[c]));
        assert(shifted_exp_gives(xs[c], m, exps[c]));
        assert(shifted_exp_gives(ys[c], m2, exps2[c]));
    }
    softmax_of_same_exponentials(eq, xs, r, m, exps, total, ys, q, m2, exps2, total2);
}

/// Softmaxes by way of exponentials that agree agree.
pub proof fn softmax_of_same_exponentials<S: Scalar>(
    eq: spec_fn(S, S) -> bool,
    xs: Seq<S>,
    r: Seq<S>,
    m: S,
    exps: Seq<S>,
    total: S,
    ys: Seq<S>,
    q: Seq<S>,
    m2: S,
    exps2: Seq<S>,
    total2: S,
)
    requires
        respects(eq),
        softmax_via(xs, r, m, exps, total),
        softmax_via(ys, q, m2, exps2, total2),
        seq_alike(eq, exps, exps2),
    ensures
        seq_alike(eq, r, q),
{
    sum_is_deterministic(eq, exps, exps2, total, total2);
    assert forall|c: int| 0 <= c < r.len() implies eq(#[trigger] r[c], q[c]) by {
        assert(eq(exps[c], exps2[c]));
        assert(over_gives(exps[c], total, r[c]));
        assert(over_gives(exps2[c], total2, q[c]));
    }
}

/// Tensors whose runs along the last dimension agree are alike.
pub proof fn lemma_runs_alike<S>(eq: spec_fn(S, S) -> bool, r: TensorView<S>, q: TensorView<S>)
    requires
        r.wf(),
        q.wf(),
        r.shape == q.shape,
        r.shape.len() > 0,
        forall|i: int|
            0 <= i < product(r.shape.drop_last()) ==> seq_alike(
                eq,
                #[trigger] row(r.data, r.shape.last() as nat, i),
                row(q.data, r.shape.last() as nat, i),
            ),
    ensures
        alike(eq, r, q),
{
    let cols = r.shape.last() as nat;
    let rows = product(r.shape.drop_last());
    assert forall|p: int| 0 <= p < r.data.len() implies eq(#[trigger] r.data[p], q.data[p]) by {
        lemma_place_cell(rows, cols, p);
        let i = p / (cols as int);
        let j = p % (cols as int);
        let ys = row(r.data, cols, i);
        let zs = row(q.data, cols, i);
        assert(seq_alike(eq, ys, zs));
        assert(ys[j] == r.data[p] && zs[j] == q.data[p]);
    }
    lemma_alike(eq, r, q);
}

/// Tensors that agree have softmaxes that agree.
pub proof fn softmax_is_deterministic<S: Scalar>(
    eq: spec_fn(S, S) -> bool,
    a: TensorView<S>,
    r: TensorView<S>,
    a2: TensorView<S>,
    q: TensorView<S>,
)
    requires
        respects(eq),
        a.dense(),
        a.shape.len() > 0,
        alike(eq, a, a2),
        softmax_lastdim_gives(a, r),
        softmax_lastdim_gives(a2, q),
    ensures
        alike(eq, r, q),
{
    let cols = a.shape.last() as nat;
    let rows = product(a.shape.drop_last());
    assert forall|i: int| 0 <= i < rows implies seq_alike(
        eq,
        #[trigger] row(r.data, cols, i),
        row(q.data, cols, i),
    ) by {
        lemma_rows_alike(eq, a.data, a2.data, rows, cols, i);
        softmax_row_is_deterministic(
            eq,
            row(a.data, cols, i),
            row(r.data, cols, i),
            row(a2.data, cols, i),
            row(q.data, cols, i),
        );
    }
    lemma_runs_alike(eq, r, q);
}

/// Matrices that agree have products that agree.
pub proof fn matmul_is_deterministic<S: Scalar>(
    eq: spec_fn(S, S) -> bool,
    a: TensorView<S>,
    b: TensorView<S>,
    r: TensorView<S>,
    a2: TensorView<S>,
    b2: TensorView<S>,
    q: TensorView<S>,
)
    requires
        respects(eq),
        a.matrix(),
        b.matrix(),
        a.shape[1] == b.shape[0],
        alike(eq, a, a2),
        alike(eq, b, b2),
        matmul_gives(a, b, r),
        matmul_gives(a2, b2, q),
    ensures
        alike(eq, r, q),
{
    lemma_product_2(a.shape);
    assert forall|i: int, j: int| 0 <= i < r.shape[0] && 0 <= j < r.shape[1] implies eq(
        #[trigger] r.at(i, j),
        q.at(i, j),
    ) by {
        lemma_rows_alike(eq, a.data, a2.data, a.shape[0] as nat, a.shape[1] as nat, i);
        lemma_columns_alike(eq, b, b2, j);
        dot_is_deterministic(
            eq,
            a.row(i),
            b.column(j),
            r.at(i, j),
            a2.row(i),
            b2.column(j),
            q.at(i, j),
            a.shape[1] as nat,
        );
    }
    lemma_cells_alike(eq, r, q);
}

/// Rows gathered from matrices that agree agree.
pub proof fn gather_is_deterministic<S>(
    eq: spec_fn(S, S) -> bool,
    a: TensorView<S>,
    r: TensorView<S>,
    a2: TensorView<S>,
    q: TensorView<S>,
    index: Seq<usize>,
)
    requires
        a.matrix(),
        alike(eq, a, a2),
        forall|e: int| 0 <= e < index.len() ==> index[e] < a.shape[0],
        gathered(a, index, r),
        gathered(a2, index, q),
    ensures
        alike(eq, r, q),
{
    assert(r.shape =~= q.shape);
    assert forall|i: int, j: int| 0 <= i < r.shape[0] && 0 <= j < r.shape[1] implies eq(
        #[trigger] r.at(i, j),
        q.at(i, j),
    ) by {
        lemma_cell_alike(eq, a, a2, index[i] as int, j);
        assert(q.at(i, j) == a2.at(index[i] as int, j));
    }
    lemma_cells_alike(eq, r, q);
}

/// Messages that agree aggregate to sums that agree.
pub proof fn scatter_is_deterministic<S: Scalar>(
    eq: spec_fn(S, S) -> bool,
    a: TensorView<S>,
    r: TensorView<S>,
    a2: TensorView<S>,
    q: TensorView<S>,
    index: Seq<usize>,
    num_nodes: nat,
)
    requires
        respects(eq),
        a.matrix(),
        index.len() == a.shape[0],
        alike(eq, a, a2),
        scatter_gives(a, index, num_nodes, r),
        scatter_gives(a2, index, num_nodes, q),
    ensures
        alike(eq, r, q),
{
    assert(r.shape =~= q.shape);
    assert forall|i: int, j: int| 0 <= i < r.shape[0] && 0 <= j < r.shape[1] implies eq(
        #[trigger] r.at(i, j),
        q.at(i, j),
    ) by {
        lemma_inbox_alike(eq, a, a2, index, i, j, index.len());
        sum_is_deterministic(
            eq,
            inbox(a, index, i, j, index.len()),
            inbox(a2, index, i, j, index.len()),
            r.at(i, j),
            q.at(i, j),
        );
    }
    lemma_cells_alike(eq, r, q);
}

/// Lists that agree have distances that agree.
pub proof fn distance_is_deterministic<S: Scalar>(
    eq: spec_fn(S, S) -> bool,
    xs: Seq<S>,
    ys: Seq<S>,
    r: S,
    xs2: Seq<S>,
    ys2: Seq<S>,
    q: S,
)
    requires
        respects(eq),
        xs.len() == ys.len(),
        seq_alike(eq, xs, xs2),
        seq_alike(eq, ys, ys2),
        distance_gives(xs, ys, r),
        distance_gives(xs2, ys2, q),
    ensures
        eq(r, q),
{
    let (sq, total) = choose|sq: Seq<S>, total: S| #[trigger]
        distance_via(xs, ys, sq, total, r);
    let (sq2, total2) = choose|sq: Seq<S>, total: S| #[trigger]
        distance_via(xs2, ys2, sq, total, q);
    assert forall|i: int| 0 <= i < xs.len() implies eq(#[trigger] sq[i], sq2[i]) by {
        assert(eq(xs[i], xs2[i]) && eq(ys[i], ys2[i]));
        assert(square_diff_gives(xs[i], ys[i], sq[i]));
        assert(square_diff_gives(xs2[i], ys2[i], sq2[i]));
    }
    sum_is_deterministic(eq, sq, sq2, total, total2);
}

/// Layers that agree give answers that agree to batches that agree.
pub proof fn linear_is_deterministic<S: Scalar>(
    eq: spec_fn(S, S) -> bool,
    layer: LinearView<S>,
    x: TensorView<S>,
    r: TensorView<S>,
    layer2: LinearView<S>,
    x2: TensorView<S>,
    q: TensorView<S>,
)
    requires
        respects(eq),
        x.dense(),
        layer.accepts(x.shape),
        layer_alike(eq, layer, layer2),
        alike(eq, x, x2),
        linear_gives(layer, x, r),
        linear_gives(layer2, x2, q),
    ensures
        alike(eq, r, q),
        r.wf(),
        r.shape == seq![x.shape[0], layer.weight.shape[1]],
{
    let y = choose|y: TensorView<S>| #[trigger]
        matmul_gives(x, layer.weight, y) && add_gives(y, layer.bias, r);
    let z = choose|z: TensorView<S>| #[trigger]
        matmul_gives(x2, layer2.weight, z) && add_gives(z, layer2.bias, q);
    matmul_is_deterministic(eq, x, layer.weight, y, x2, layer2.weight, z);
    add_is_deterministic(eq, y, layer.bias, r, z, layer2.bias, q);
}

proof fn lemma_layer_is_deterministic<S: Scalar>(
    eq: spec_fn(S, S) -> bool,
    layers: Seq<LinearView<S>>,
    h: TensorView<S>,
    r: TensorView<S>,
    layers2: Seq<LinearView<S>>,
    h2: TensorView<S>,
    q: TensorView<S>,
    i: int,
)
    requires
        respects(eq),
        0 <= i < layers.len(),
        h.dense(),
        layers[i].accepts(h.shape),
        layers_alike(eq, layers, layers2),
        alike(eq, h, h2),
        layer_gives(layers, i, h, r),
        layer_gives(layers2, i, h2, q),
    ensures
        alike(eq, r, q),
        r.wf(),
        r.shape == seq![h.shape[0], layers[i].weight.shape[1]],
{
    assert(layer_alike(eq, layers[i], layers2[i]));
    if i == layers.len() - 1 {
        linear_is_deterministic(eq, layers[i], h, r, layers2[i], h2, q);
    } else {
        let y = choose|y: TensorView<S>| #[trigger]
            linear_gives(layers[i], h, y) && relu_gives(y, r);
        let z = choose|z: TensorView<S>| #[trigger]
            linear_gives(layers2[i], h2, z) && relu_gives(z, q);
        linear_is_deterministic(eq, layers[i], h, y, layers2[i], h2, z);
        relu_is_deterministic(eq, y, r, z, q);
    }
}

proof fn lemma_layers_are_deterministic<S: Scalar>(
    eq: spec_fn(S, S) -> bool,
    layers: Seq<LinearView<S>>,
    x: TensorView<S>,
    r: TensorView<S>,
    layers2: Seq<LinearView<S>>,
    x2: TensorView<S>,
    q: TensorView<S>,
    n: nat,
)
    requires
        respects(eq),
        n <= layers.len(),
        x.dense(),
        accepts_all(layers, x.shape),
        layers_alike(eq, layers, layers2),
        alike(eq, x, x2),
        layers_give(layers, x, n, r),
        layers_give(layers2, x2, n, q),
    ensures
        alike(eq, r, q),
        r.dense(),
        r.shape == flow(layers, x.shape, n),
    decreases n,
{
    if n > 0 {
        let m = (n - 1) as nat;
        let h = choose|h: TensorView<S>|
            layers_give(layers, x, m, h) && #[trigger] layer_gives(layers, n - 1, h, r);
        let g = choose|g: TensorView<S>|
            layers_give(layers2, x2, m, g) && #[trigger] layer_gives(layers2, n - 1, g, q);
        lemma_layers_are_deterministic(eq, layers, x, h, layers2, x2, g, m);
        assert(accepts_at(layers, x.shape, n - 1));
        lemma_layer_is_deterministic(eq, layers, h, r, layers2, g, q, n - 1);
    }
}

/// Networks that agree give logits that agree to batches that agree.
pub proof fn forward_is_deterministic<S: Scalar>(
    eq: spec_fn(S, S) -> bool,
    layers: Seq<LinearView<S>>,
    x: TensorView<S>,
    r: TensorView<S>,
    layers2: Seq<LinearView<S>>,
    x2: TensorView<S>,
    q: TensorView<S>,
)
    requires
        respects(eq),
        x.dense(),
        accepts_all(layers, x.shape),
        layers_alike(eq, layers, layers2),
        alike(eq, x, x2),
        layers_give(layers, x, layers.len(), r),
        layers_give(layers2, x2, layers2.len(), q),
    ensures
        alike(eq, r, q),
{
    lemma_layers_are_deterministic(eq, layers, x, r, layers2, x2, q, layers.len());
}

/// Same weights, same inputs, same bits: where the operations differ in NaN
/// only, a network has one answer to a batch unless there is a NaN in it.
pub proof fn forward_gives_the_same_bits<S: Scalar>(
    nan: spec_fn(S) -> bool,
    layers: Seq<LinearView<S>>,
    x: TensorView<S>,
    r: TensorView<S>,
    q: TensorView<S>,
)
    requires
        respects(same_but_for(nan)),
        x.dense(),
        accepts_all(layers, x.shape),
        layers_give(layers, x, layers.len(), r),
        layers_give(layers, x, layers.len(), q),
        free_of(nan, r.data),
    ensures
        r == q,
{
    forward_is_deterministic(same_but_for(nan), layers, x, r, layers, x, q);
    alike_without_nan_is_same(nan, r, q);
}

/// Lists that agree have one greatest place.
pub proof fn argmax_is_deterministic<S: Scalar>(
    eq: spec_fn(S, S) -> bool,
    xs: Seq<S>,
    b: int,
    ys: Seq<S>,
    c: int,
    n: nat,
)
    requires
        respects(eq),
        seq_alike(eq, xs, ys),
        n <= xs.len(),
        argmax_gives(xs, n, b),
        argmax_gives(ys, n, c),
    ensures
        b == c,
        0 <= b < n,
    decreases n,
{
    if n > 1 {
        let m = (n - 1) as nat;
        let (p, o) = choose|p: int, o: Order|
            {
                &&& argmax_gives(xs, m, p)
                &&& #[trigger] order_gives(xs[p], xs[n - 1], o)
                &&& o != Order::Unordered
                &&& b == (if o == Order::Greater {
                    p
                } else {
                    n - 1
                })
            };
        let (q, u) = choose|q: int, u: Order|
            {
                &&& argmax_gives(ys, m, q)
                &&& #[trigger] order_gives(ys[q], ys[n - 1], u)
                &&& u != Order::Unordered
                &&& c == (if u == Order::Greater {
                    q
                } else {
                    n - 1
                })
            };
        argmax_is_deterministic(eq, xs, p, ys, q, m);
        assert(eq(xs[p], ys[q]) && eq(xs[n - 1], ys[n - 1]));
    }
}

/// A search that ended met no two elements without an order, and neither does
/// one among elements that agree.
proof fn lemma_argmax_not_stuck<S: Scalar>(
    eq: spec_fn(S, S) -> bool,
    xs: Seq<S>,
    m: nat,
    best: int,
    ys: Seq<S>,
    n: nat,
    b: int,
)
    requires
        respects(eq),
        seq_alike(eq, xs, ys),
        m <= xs.len(),
        argmax_gives(xs, m, best),
        1 <= n < m,
        argmax_gives(ys, n, b),
    ensures
        !order_gives(ys[b], ys[n as int], Order::Unordered),
    decreases m,
{
    let k = (m - 1) as nat;
    let (p, o) = choose|p: int, o: Order|
        {
            &&& argmax_gives(xs, k, p)
            &&& #[trigger] order_gives(xs[p], xs[m - 1], o)
            &&& o != Order::Unordered
            &&& best == (if o == Order::Greater {
                p
            } else {
                m - 1
            })
        };
    if n == k {
        argmax_is_deterministic(eq, xs, p, ys, b, n);
        assert(eq(xs[p], ys[b]) && eq(xs[m - 1], ys[n as int]));
    } else {
        lemma_argmax_not_stuck(eq, xs, k, p, ys, n, b);
    }
}

proof fn lemma_rows_not_stuck<S: Scalar>(
    eq: spec_fn(S, S) -> bool,
    y: TensorView<S>,
    preds: Seq<usize>,
    z: TensorView<S>,
)
    requires
        respects(eq),
        y.dense(),
        y.shape.len() > 0,
        alike(eq, y, z),
        argmax_rows_gives(y, preds),
    ensures
        !argmax_rows_stuck(z),
{
    let cols = y.shape.last() as nat;
    let rows = product(y.shape.drop_last());
    assert forall|i: int| 0 <= i < rows implies !argmax_stuck(#[trigger] row(z.data, cols, i)) by {
        let xs = row(y.data, cols, i);
        let ys = row(z.data, cols, i);
        lemma_rows_alike(eq, y.data, z.data, rows, cols, i);
        assert(preds[i] < cols);
        assert forall|n: nat, b: int|
            1 <= n < ys.len() && argmax_gives(ys, n, b) implies !#[trigger] order_gives(
            ys[b],
            ys[n as int],
            Order::Unordered,
        ) by {
            lemma_argmax_not_stuck(eq, xs, cols, preds[i] as int, ys, n, b);
        }
    }
}

proof fn lemma_alike_swap<S: Scalar>(eq: spec_fn(S, S) -> bool, r: TensorView<S>, q: TensorView<S>)
    requires
        respects(eq),
        alike(eq, r, q),
    ensures
        alike(eq, q, r),
{
}

/// Networks that agree make the same predictions for batches that agree.
pub proof fn predict_is_deterministic<S: Scalar>(
    eq: spec_fn(S, S) -> bool,
    layers: Seq<LinearView<S>>,
    x: TensorView<S>,
    p: Option<Seq<usize>>,
    layers2: Seq<LinearView<S>>,
    x2: TensorView<S>,
    q: Option<Seq<usize>>,
)
    requires
        respects(eq),
        layers.len() > 0,
        x.dense(),
        accepts_all(layers, x.shape),
        layers_alike(eq, layers, layers2),
        alike(eq, x, x2),
        predict_gives(layers, x, p),
        predict_gives(layers2, x2, q),
    ensures
        p == q,
{
    let y = choose|y: TensorView<S>| #[trigger] predict_via(layers, x, y, p);
    let z = choose|z: TensorView<S>| #[trigger] predict_via(layers2, x2, z, q);
    forward_is_deterministic(eq, layers, x, y, layers2, x2, z);
    if p is Some && q is Some {
        lemma_same_classes(eq, y, p->0, z, q->0);
    } else if p is Some {
        lemma_rows_not_stuck(eq, y, p->0, z);
    } else if q is Some {
        lemma_alike_swap(eq, y, z);
        lemma_rows_not_stuck(eq, z, q->0, y);
    }
}

proof fn lemma_same_classes<S: Scalar>(
    eq: spec_fn(S, S) -> bool,
    y: TensorView<S>,
    p: Seq<usize>,
    z: TensorView<S>,
    q: Seq<usize>,
)
    requires
        respects(eq),
        y.dense(),
        y.shape.len() > 0,
        alike(eq, y, z),
        argmax_rows_gives(y, p),
        argmax_rows_gives(z, q),
    ensures
        p == q,
{
    let cols = y.shape.last() as nat;
    let rows = product(y.shape.drop_last());
    assert forall|i: int| 0 <= i < rows implies p[i] == q[i] by {
        lemma_rows_alike(eq, y.data, z.data, rows, cols, i);
        assert(p[i] < cols && q[i] < cols);
        argmax_is_deterministic(
            eq,
            row(y.data, cols, i),
            p[i] as int,
            row(z.data, cols, i),
            q[i] as int,
            cols,
        );
    }
    assert(p =~= q);
}

proof fn lemma_uniform_is_deterministic<S: Scalar>(
    eq: spec_fn(S, S) -> bool,
    state: u64,
    u: S,
    v: S,
)
    requires
        respects(eq),
        uniform_gives(state, u),
        uniform_gives(state, v),
    ensures
        eq(u, v),
{
}

proof fn lemma_radius_is_deterministic<S: Scalar>(
    eq: spec_fn(S, S) -> bool,
    u: S,
    r: S,
    v: S,
    q: S,
)
    requires
        respects(eq),
        eq(u, v),
        radius_gives(u, r),
        radius_gives(v, q),
    ensures
        eq(r, q),
{
}

proof fn lemma_angle_is_deterministic<S: Scalar>(
    eq: spec_fn(S, S) -> bool,
    u: S,
    a: S,
    v: S,
    b: S,
)
    requires
        respects(eq),
        eq(u, v),
        angle_gives(u, a),
        angle_gives(v, b),
    ensures
        eq(a, b),
{
}

proof fn lemma_polar_is_deterministic<S: Scalar>(
    eq: spec_fn(S, S) -> bool,
    r: S,
    a: S,
    x: S,
    y: S,
    r2: S,
    a2: S,
    v: S,
    w: S,
)
    requires
        respects(eq),
        eq(r, r2),
        eq(a, a2),
        polar_gives(r, a, x, y),
        polar_gives(r2, a2, v, w),
    ensures
        eq(x, v),
        eq(y, w),
{
}

proof fn lemma_pair_is_deterministic<S: Scalar>(
    eq: spec_fn(S, S) -> bool,
    first: u64,
    second: u64,
    x: S,
    y: S,
    v: S,
    w: S,
)
    requires
        respects(eq),
        normal_pair_gives(first, second, x, y),
        normal_pair_gives(first, second, v, w),
    ensures
        eq(x, v),
        eq(y, w),
{
    let (a, b, r, t) = choose|a: S, b: S, r: S, t: S|
        {
            &&& uniform_gives(first, a)
            &&& uniform_gives(second, b)
            &&& #[trigger] radius_gives(a, r)
            &&& #[trigger] angle_gives(b, t)
            &&& polar_gives(r, t, x, y)
        };
    let (a2, b2, r2, t2) = choose|a: S, b: S, r: S, t: S|
        {
            &&& uniform_gives(first, a)
            &&& uniform_gives(second, b)
            &&& #[trigger] radius_gives(a, r)
            &&& #[trigger] angle_gives(b, t)
            &&& polar_gives(r, t, v, w)
        };
    lemma_uniform_is_deterministic(eq, first, a, a2);
    lemma_uniform_is_deterministic(eq, second, b, b2);
    lemma_radius_is_deterministic(eq, a, r, a2, r2);
    lemma_angle_is_deterministic(eq, b, t, b2, t2);
    lemma_polar_is_deterministic(eq, r, t, x, y, r2, t2, v, w);
}

/// The draws of a seed agree as far as both reach: a shorter draw is a prefix
/// of a longer one, and the shape matters through its product only.
pub proof fn randn_is_deterministic<S: Scalar>(
    eq: spec_fn(S, S) -> bool,
    seed: u64,
    r: Seq<S>,
    q: Seq<S>,
)
    requires
        respects(eq),
        r.len() <= q.len(),
        normals_give(seed, r),
        normals_give(seed, q),
    ensures
        seq_alike(eq, r, q.take(r.len() as int)),
{
    let n = r.len();
    let front = q.take(n as int);
    draws_are_prefixes(seed, q, n);
    assert forall|i: int| 0 <= i < n implies eq(#[trigger] r[i], front[i]) by {
        let p = i / 2;
        if 2 * p + 1 < n {
            lemma_pair_is_deterministic(
                eq,
                state_after(seed, (2 * p + 1) as nat),
                state_after(seed, (2 * p + 2) as nat),
                r[2 * p],
                r[2 * p + 1],
                front[2 * p],
                front[2 * p + 1],
            );
        } else {
            let first = state_after(seed, n);
            let second = state_after(seed, n + 1);
            let y = choose|y: S| #[trigger] normal_pair_gives(first, second, r.last(), y);
            let z = choose|z: S| #[trigger] normal_pair_gives(first, second, front.last(), z);
            lemma_pair_is_deterministic(eq, first, second, r.last(), y, front.last(), z);
        }
    }
}

/// The draws of the seeds 0 and 1 agree.
pub proof fn draws_of_zero_and_one_agree<S: Scalar>(
    eq: spec_fn(S, S) -> bool,
    r: Seq<S>,
    q: Seq<S>,
)
    requires
        respects(eq),
        r.len() == q.len(),
        normals_give(0, r),
        normals_give(1, q),
    ensures
        seq_alike(eq, r, q),
{
    seeds_zero_and_one_agree(q);
    randn_is_deterministic(eq, 0, r, q);
    assert(q.take(r.len() as int) =~= q);
}

/// Fresh layers of one size and seed agree.
pub proof fn fresh_linear_is_deterministic<S: Scalar>(
    eq: spec_fn(S, S) -> bool,
    in_features: usize,
    out_features: usize,
    seed: u64,
    r: LinearView<S>,
    q: LinearView<S>,
)
    requires
        respects(eq),
        fresh_linear_gives(in_features, out_features, seed, r),
        fresh_linear_gives(in_features, out_features, seed, q),
    ensures
        layer_alike(eq, r, q),
{
    let (scale, raw) = choose|scale: S, raw: Seq<S>|
        he_scale_gives(in_features, scale) && #[trigger] scaled_normals_give(
            seed,
            scale,
            raw,
            r.weight.data,
        );
    let (scale2, raw2) = choose|scale: S, raw: Seq<S>|
        he_scale_gives(in_features, scale) && #[trigger] scaled_normals_give(
            seed,
            scale,
            raw,
            q.weight.data,
        );
    lemma_scale_is_deterministic(eq, in_features, scale, scale2);
    randn_is_deterministic(eq, seed, raw, raw2);
    assert(raw2.take(raw.len() as int) =~= raw2);
    assert forall|i: int| 0 <= i < r.weight.data.len() implies eq(
        #[trigger] r.weight.data[i],
        q.weight.data[i],
    ) by {
        assert(eq(raw[i], raw2[i]));
        assert(times_gives(raw[i], scale, r.weight.data[i]));
        assert(times_gives(raw2[i], scale2, q.weight.data[i]));
    }
    lemma_alike(eq, r.weight, q.weight);
    assert forall|i: int| 0 <= i < r.bias.data.len() implies eq(
        #[trigger] r.bias.data[i],
        q.bias.data[i],
    ) by {
        assert(zero_gives(r.bias.data[i]) && zero_gives(q.bias.data[i]));
    }
    lemma_alike(eq, r.bias, q.bias);
}

proof fn lemma_scale_is_deterministic<S: Scalar>(
    eq: spec_fn(S, S) -> bool,
    in_features: usize,
    r: S,
    q: S,
)
    requires
        respects(eq),
        he_scale_gives(in_features, r),
        he_scale_gives(in_features, q),
    ensures
        eq(r, q),
{
}

/// A round of messages leads from states that agree to states that agree.
pub proof fn round_is_deterministic<S: Scalar>(
    eq: spec_fn(S, S) -> bool,
    src: Seq<usize>,
    dst: Seq<usize>,
    damping: S,
    state: TensorView<S>,
    r: TensorView<S>,
    state2: TensorView<S>,
    q: TensorView<S>,
)
    requires
        respects(eq),
        edges_fit(src, dst, state),
        alike(eq, state, state2),
        round_gives(src, dst, damping, state, r),
        round_gives(src, dst, damping, state2, q),
    ensures
        alike(eq, r, q),
{
    let nodes = state.shape[0] as nat;
    let (e, a, k) = choose|e: TensorView<S>, a: TensorView<S>, k: S|
        {
            &&& #[trigger] gathered(state, src, e)
            &&& scatter_gives(e, dst, nodes, a)
            &&& #[trigger] blend_gives(damping, a, state, k, r)
        };
    let (f, b, l) = choose|f: TensorView<S>, b: TensorView<S>, l: S|
        {
            &&& #[trigger] gathered(state2, src, f)
            &&& scatter_gives(f, dst, nodes, b)
            &&& #[trigger] blend_gives(damping, b, state2, l, q)
        };
    gather_is_deterministic(eq, state, e, state2, f, src);
    scatter_is_deterministic(eq, e, a, f, b, dst, nodes);
    lemma_product_2(a.shape);
    lemma_product_2(state.shape);
    lemma_complement_is_deterministic(eq, damping, k, l);
    assert forall|i: int| 0 <= i < r.data.len() implies eq(#[trigger] r.data[i], q.data[i]) by {
        assert(eq(a.data[i], b.data[i]) && eq(state.data[i], state2.data[i]));
        lemma_blend_is_deterministic(
            eq,
            damping,
            k,
            a.data[i],
            state.data[i],
            r.data[i],
            l,
            b.data[i],
            state2.data[i],
            q.data[i],
        );
    }
    lemma_alike(eq, r, q);
}

proof fn lemma_complement_is_deterministic<S: Scalar>(
    eq: spec_fn(S, S) -> bool,
    damping: S,
    k: S,
    l: S,
)
    requires
        respects(eq),
        complement_gives(damping, k),
        complement_gives(damping, l),
    ensures
        eq(k, l),
{
    assert(eq(damping, damping));
}

proof fn lemma_blend_is_deterministic<S: Scalar>(
    eq: spec_fn(S, S) -> bool,
    damping: S,
    k: S,
    new: S,
    old_elem: S,
    r: S,
    l: S,
    new2: S,
    old_elem2: S,
    q: S,
)
    requires
        respects(eq),
        eq(k, l),
        eq(new, new2),
        eq(old_elem, old_elem2),
        blend_elem_gives(damping, k, new, old_elem, r),
        blend_elem_gives(damping, l, new2, old_elem2, q),
    ensures
        eq(r, q),
{
    assert(eq(damping, damping));
}

proof fn lemma_runs_agree<S: Scalar>(
    eq: spec_fn(S, S) -> bool,
    src: Seq<usize>,
    dst: Seq<usize>,
    damping: S,
    states: Seq<TensorView<S>>,
    deltas: Seq<S>,
    states2: Seq<TensorView<S>>,
    deltas2: Seq<S>,
    n: nat,
)
    requires
        respects(eq),
        run_gives(src, dst, damping, states, deltas),
        run_gives(src, dst, damping, states2, deltas2),
        alike(eq, states[0], states2[0]),
        edges_fit(src, dst, states[0]),
        n <= deltas.len(),
        n <= deltas2.len(),
    ensures
        alike(eq, states[n as int], states2[n as int]),
        edges_fit(src, dst, states[n as int]),
        forall|t: int| 0 <= t < n ==> eq(#[trigger] deltas[t], deltas2[t]),
    decreases n,
{
    if n > 0 {
        let m = n - 1;
        lemma_runs_agree(eq, src, dst, damping, states, deltas, states2, deltas2, m as nat);
        assert(round_gives(src, dst, damping, states[m], states[m + 1]));
        assert(round_gives(src, dst, damping, states2[m], states2[m + 1]));
        round_is_deterministic(
            eq,
            src,
            dst,
            damping,
            states[m],
            states[m + 1],
            states2[m],
            states2[m + 1],
        );
        assert(distance_gives(states[m + 1].data, states[m].data, deltas[m]));
        assert(distance_gives(states2[m + 1].data, states2[m].data, deltas2[m]));
        distance_is_deterministic(
            eq,
            states[m + 1].data,
            states[m].data,
            deltas[m],
            states2[m + 1].data,
            states2[m].data,
            deltas2[m],
        );
    }
}

proof fn lemma_no_longer_run<S: Scalar>(
    eq: spec_fn(S, S) -> bool,
    eps: S,
    max_iters: nat,
    deltas: Seq<S>,
    deltas2: Seq<S>,
)
    requires
        respects(eq),
        halted(eps, deltas, max_iters),
        halted(eps, deltas2, max_iters),
        forall|t: int|
            0 <= t < deltas.len() && t < deltas2.len() ==> eq(#[trigger] deltas[t], deltas2[t]),
    ensures
        deltas2.len() <= deltas.len(),
{
    let n = deltas.len();
    if n < deltas2.len() {
        assert(not_below(deltas2[n - 1], eps));
        assert(eq(deltas[n - 1], deltas2[n - 1]) && eq(eps, eps));
    }
}

/// A run of messages has one course: states that agree lead to states that
/// agree in the same number of rounds.
pub proof fn run_is_deterministic<S: Scalar>(
    eq: spec_fn(S, S) -> bool,
    src: Seq<usize>,
    dst: Seq<usize>,
    damping: S,
    eps: S,
    max_iters: nat,
    first: TensorView<S>,
    r: TensorView<S>,
    deltas: Seq<S>,
    first2: TensorView<S>,
    q: TensorView<S>,
    deltas2: Seq<S>,
)
    requires
        respects(eq),
        edges_fit(src, dst, first),
        alike(eq, first, first2),
        leads_to(src, dst, damping, first, deltas, r),
        leads_to(src, dst, damping, first2, deltas2, q),
        halted(eps, deltas, max_iters),
        halted(eps, deltas2, max_iters),
    ensures
        alike(eq, r, q),
        seq_alike(eq, deltas, deltas2),
{
    let states = choose|states: Seq<TensorView<S>>|
        {
            &&& #[trigger] run_gives(src, dst, damping, states, deltas)
            &&& states[0] == first
            &&& states.last() == r
        };
    let states2 = choose|states: Seq<TensorView<S>>|
        {
            &&& #[trigger] run_gives(src, dst, damping, states, deltas2)
            &&& states[0] == first2
            &&& states.last() == q
        };
    let n = if deltas.len() < deltas2.len() {
        deltas.len()
    } else {
        deltas2.len()
    };
    lemma_runs_agree(eq, src, dst, damping, states, deltas, states2, deltas2, n);
    lemma_no_longer_run(eq, eps, max_iters, deltas, deltas2);
    assert forall|t: int| 0 <= t < n implies eq(#[trigger] deltas2[t], deltas[t]) by {
        assert(eq(deltas[t], deltas2[t]));
    }
    lemma_no_longer_run(eq, eps, max_iters, deltas2, deltas);
}

/// Lists that agree have largest differences that agree.
pub proof fn max_diff_is_deterministic<S: Scalar>(
    eq: spec_fn(S, S) -> bool,
    xs: Seq<S>,
    ys: Seq<S>,
    r: S,
    xs2: Seq<S>,
    ys2: Seq<S>,
    q: S,
    n: nat,
)
    requires
        respects(eq),
        seq_alike(eq, xs, xs2),
        seq_alike(eq, ys, ys2),
        n <= xs.len(),
        n <= ys.len(),
        max_diff_gives(xs, ys, n, r),
        max_diff_gives(xs2, ys2, n, q),
    ensures
        eq(r, q),
    decreases n,
{
    if n > 0 {
        let m = (n - 1) as nat;
        let s = choose|s: S|
            max_diff_gives(xs, ys, m, s) && #[trigger] wider_gives(s, xs[n - 1], ys[n - 1], r);
        let t = choose|t: S|
            max_diff_gives(xs2, ys2, m, t) && #[trigger] wider_gives(t, xs2[n - 1], ys2[n - 1], q);
        max_diff_is_deterministic(eq, xs, ys, s, xs2, ys2, t, m);
        assert(eq(xs[n - 1], xs2[n - 1]) && eq(ys[n - 1], ys2[n - 1]));
    }
}

/// The tensors of one entry of a file agree.
pub proof fn entry_is_deterministic<S: Scalar>(
    eq: spec_fn(S, S) -> bool,
    entry: Entry,
    r: TensorView<S>,
    q: TensorView<S>,
)
    requires
        respects(eq),
        entry_gives(entry, r),
        entry_gives(entry, q),
    ensures
        alike(eq, r, q),
{
    assert forall|i: int| 0 <= i < r.data.len() implies eq(#[trigger] r.data[i], q.data[i]) by {
        assert(from_bits_gives(entry.bits[i], r.data[i]));
        assert(from_bits_gives(entry.bits[i], q.data[i]));
    }
    lemma_alike(eq, r, q);
}

} // verus!
