//! How tensor operations relate to each other, whatever the elements are.
use vstd::prelude::*;

use crate::alike::{alike, seq_alike};
use crate::determinism::{
    argmax_is_deterministic, dot_is_deterministic, entry_is_deterministic,
    forward_is_deterministic,
};
use crate::grid::{lemma_cell_inside, lemma_cell_unique, lemma_place_cell};
use crate::nn::{
    accepts_all, accepts_at, argmax_gives, argmax_rows_gives, flow, fresh_linear_gives, layer_gives,
    layers_give, lemma_layers_extend, linear_gives, predict_gives, predict_via,
};
use crate::nn::LinearView;
use crate::reduce::{relu_elem_gives, sum_gives};
use crate::rtw::{all_encodable, file_bytes, file_entries};
use crate::rtw::Entry;
use crate::rtw_laws::written_file_reads_back;
use crate::scalar::{order_gives, plus_gives, respects, zero_gives};
use crate::scalar::{Order, Scalar};
use crate::shape::{lemma_product_1, lemma_product_2, lemma_product_first, product, row_major};
use crate::tensor::{
    add_gives, gathered, holds, inbox, matmul_gives, relu_gives, scatter_gives,
};
use crate::tensor::{Tensor, TensorView};
use crate::weights::{entry_gives, is_last_of_name, last_counts, named, tensors_give};

verus! {

/// Reshaping there and back changes nothing.
pub proof fn reshape_is_reversible<S>(
    t: TensorView<S>,
    shape: Seq<usize>,
    there: TensorView<S>,
    back: TensorView<S>,
)
    requires
        t.wf(),
        holds(there, t.data, shape),
        holds(back, there.data, t.shape),
    ensures
        back == t,
{
    assert(back.strides =~= t.strides);
}

/// Stride `i` is the next one times the next dimension.
pub open spec fn stride_nests(shape: Seq<usize>, strides: Seq<usize>, i: int) -> bool {
    strides[i] == strides[i + 1] * shape[i + 1]
}

/// Each row-major stride is the next one times the next dimension; the last is
/// 1, and the first spans the elements of the first dimension.
pub proof fn strides_nest(shape: Seq<usize>, strides: Seq<usize>)
    requires
        row_major(shape, strides),
        shape.len() > 0,
    ensures
        strides.last() == 1,
        forall|i: int| 0 <= i < shape.len() - 1 ==> #[trigger] stride_nests(shape, strides, i),
        strides[0] * shape[0] == product(shape),
{
    let n = shape.len() as int;
    assert(shape.skip(n) =~= Seq::<usize>::empty());
    assert forall|i: int| 0 <= i < shape.len() - 1 implies #[trigger] stride_nests(
        shape,
        strides,
        i,
    ) by {
        let rest = shape.skip(i + 1);
        lemma_product_first(rest);
        assert(rest.skip(1) =~= shape.skip(i + 2));
        assert(strides[i + 1] == product(shape.skip(i + 1 + 1)));
        let a = strides[i + 1] as int;
        let b = shape[i + 1] as int;
        assert(a * b == b * a) by (nonlinear_arith);
    }
    lemma_product_first(shape);
    let a = strides[0] as int;
    let b = shape[0] as int;
    assert(a * b == b * a) by (nonlinear_arith);
}

/// How far from the start the element of an index lies.
pub open spec fn offset(index: Seq<int>, strides: Seq<usize>) -> int
    decreases index.len(),
{
    if index.len() == 0 {
        0
    } else {
        index[0] * strides[0] + offset(index.skip(1), strides.skip(1))
    }
}

/// An index that a shape admits: one place in each dimension.
pub open spec fn admits(shape: Seq<usize>, index: Seq<int>) -> bool {
    &&& index.len() == shape.len()
    &&& forall|i: int| 0 <= i < shape.len() ==> 0 <= #[trigger] index[i] < shape[i]
}

/// The index of the element at a place.
pub open spec fn index_of(shape: Seq<usize>, place: int) -> Seq<int>
    decreases shape.len(),
{
    if shape.len() == 0 {
        Seq::empty()
    } else {
        let span = product(shape.skip(1)) as int;
        seq![place / span] + index_of(shape.skip(1), place % span)
    }
}

proof fn lemma_strides_of_rest(shape: Seq<usize>, strides: Seq<usize>)
    requires
        row_major(shape, strides),
        shape.len() > 0,
    ensures
        strides[0] == product(shape.skip(1)),
        row_major(shape.skip(1), strides.skip(1)),
{
    let rest = shape.skip(1);
    assert forall|i: int| 0 <= i < rest.len() implies #[trigger] strides.skip(1)[i] == product(
        rest.skip(i + 1),
    ) by {
        assert(rest.skip(i + 1) =~= shape.skip(i + 1 + 1));
        assert(strides.skip(1)[i] == strides[i + 1]);
    }
}

/// At every rank the row-major strides lead each index to a place of its own
/// among the elements.
pub proof fn strides_number_elements(
    shape: Seq<usize>,
    strides: Seq<usize>,
    a: Seq<int>,
    b: Seq<int>,
)
    requires
        row_major(shape, strides),
        admits(shape, a),
        admits(shape, b),
    ensures
        0 <= offset(a, strides) < product(shape),
        offset(a, strides) == offset(b, strides) ==> a == b,
    decreases shape.len(),
{
    if shape.len() == 0 {
        assert(a =~= b);
    } else {
        let rest = shape.skip(1);
        let cols = product(rest);
        let i = offset(a.skip(1), strides.skip(1));
        let j = offset(b.skip(1), strides.skip(1));
        lemma_strides_of_rest(shape, strides);
        lemma_product_first(shape);
        strides_number_elements(rest, strides.skip(1), a.skip(1), b.skip(1));
        strides_number_elements(rest, strides.skip(1), b.skip(1), a.skip(1));
        lemma_cell_inside(shape[0] as nat, cols, a[0], i);
        if offset(a, strides) == offset(b, strides) {
            lemma_cell_unique(cols, a[0], i, b[0], j);
            assert(a =~= seq![a[0]] + a.skip(1));
            assert(b =~= seq![b[0]] + b.skip(1));
        }
    }
}

/// At every rank each place among the elements has an index.
pub proof fn every_place_has_an_index(shape: Seq<usize>, strides: Seq<usize>, place: int)
    requires
        row_major(shape, strides),
        0 <= place < product(shape),
    ensures
        admits(shape, index_of(shape, place)),
        offset(index_of(shape, place), strides) == place,
    decreases shape.len(),
{
    if shape.len() > 0 {
        let rest = shape.skip(1);
        let span = product(rest);
        lemma_product_first(shape);
        lemma_place_cell(shape[0] as nat, span, place);
        lemma_strides_of_rest(shape, strides);
        let tail = index_of(rest, place % (span as int));
        every_place_has_an_index(rest, strides.skip(1), place % (span as int));
        let index = index_of(shape, place);
        assert(index.skip(1) =~= tail);
        assert forall|i: int| 0 <= i < shape.len() implies 0 <= #[trigger] index[i] < shape[i] by {
            if i > 0 {
                assert(index[i] == tail[i - 1]);
                assert(rest[i - 1] == shape[i]);
            }
        }
    }
}

/// In a well-formed matrix the strides lead to the cell: `at2` may ask for
/// every row and column and gets the element there.
pub proof fn strides_reach_cells<S>(t: TensorView<S>, i: int, j: int)
    requires
        t.wf(),
        t.shape.len() == 2,
        0 <= i < t.shape[0],
        0 <= j < t.shape[1],
    ensures
        0 <= i * t.strides[0] + j * t.strides[1] < t.data.len(),
        t.data[i * t.strides[0] + j * t.strides[1]] == t.at(i, j),
{
    strides_nest(t.shape, t.strides);
    assert(stride_nests(t.shape, t.strides, 0));
    lemma_product_2(t.shape);
    lemma_cell_inside(t.shape[0] as nat, t.shape[1] as nat, i, j);
    let s = t.strides[0] as int;
    let one = t.strides[1] as int;
    let cols = t.shape[1] as int;
    assert(s == cols) by (nonlinear_arith)
        requires
            s == one * cols,
            one == 1,
    ;
    assert(j * one == j) by (nonlinear_arith)
        requires
            one == 1,
    ;
}

/// Gathering all rows in order changes nothing.
pub proof fn gather_of_all_rows<S>(a: TensorView<S>, index: Seq<usize>, r: TensorView<S>)
    requires
        a.wf(),
        a.shape.len() == 2,
        index.len() == a.shape[0],
        forall|e: int| 0 <= e < index.len() ==> index[e] == e,
        gathered(a, index, r),
    ensures
        r == a,
{
    assert(r.shape =~= a.shape);
    assert(r.strides =~= a.strides);
    lemma_product_2(a.shape);
    let cols = a.shape[1] as int;
    assert forall|p: int| 0 <= p < a.data.len() implies r.data[p] == a.data[p] by {
        lemma_place_cell(a.shape[0] as nat, cols as nat, p);
        let i = p / cols;
        let j = p % cols;
        assert(r.at(i, j) == a.at(index[i] as int, j));
    }
    assert(r.data =~= a.data);
}

/// Gathering from gathered rows follows both indices.
pub proof fn gather_composes<S>(
    a: TensorView<S>,
    first: Seq<usize>,
    second: Seq<usize>,
    mid: TensorView<S>,
    r: TensorView<S>,
)
    requires
        forall|e: int| 0 <= e < second.len() ==> second[e] < first.len(),
        gathered(a, first, mid),
        gathered(mid, second, r),
    ensures
        gathered(a, second.map_values(|i: usize| first[i as int]), r),
{
    let both = second.map_values(|i: usize| first[i as int]);
    assert forall|e: int, f: int| 0 <= e < both.len() && 0 <= f < a.shape[1] implies #[trigger] r.at(
        e,
        f,
    ) == a.at(both[e] as int, f) by {
        assert(r.at(e, f) == mid.at(second[e] as int, f));
    }
}

/// A node that no row goes to is zero.
pub proof fn scatter_leaves_silent_nodes_zero<S: Scalar>(
    a: TensorView<S>,
    index: Seq<usize>,
    num_nodes: nat,
    r: TensorView<S>,
    node: int,
    f: int,
)
    requires
        scatter_gives(a, index, num_nodes, r),
        0 <= node < num_nodes,
        0 <= f < a.shape[1],
        forall|e: int| 0 <= e < index.len() ==> index[e] != node,
    ensures
        zero_gives(r.at(node, f)),
{
    lemma_silent_inbox(a, index, node, f, index.len());
    assert(sum_gives(inbox(a, index, node, f, index.len()), r.at(node, f)));
}

proof fn lemma_silent_inbox<S>(a: TensorView<S>, index: Seq<usize>, node: int, f: int, n: nat)
    requires
        n <= index.len(),
        forall|e: int| 0 <= e < index.len() ==> index[e] != node,
    ensures
        inbox(a, index, node, f, n) == Seq::<S>::empty(),
    decreases n,
{
    if n > 0 {
        lemma_silent_inbox(a, index, node, f, (n - 1) as nat);
    }
}

/// Feature `f` of the source nodes of the edges, among the first `n`, that
/// lead to `node`, in order.
pub open spec fn messages<S>(
    nodes: TensorView<S>,
    src: Seq<usize>,
    dst: Seq<usize>,
    node: int,
    f: int,
    n: nat,
) -> Seq<S>
    decreases n,
{
    if n == 0 {
        Seq::empty()
    } else if dst[n - 1] == node {
        messages(nodes, src, dst, node, f, (n - 1) as nat).push(nodes.at(src[n - 1] as int, f))
    } else {
        messages(nodes, src, dst, node, f, (n - 1) as nat)
    }
}

/// Gathering at the sources of edges and scattering to their destinations
/// passes messages: each node ends with the sum of its sources.
pub proof fn gather_then_scatter_passes_messages<S: Scalar>(
    nodes: TensorView<S>,
    src: Seq<usize>,
    dst: Seq<usize>,
    num_nodes: nat,
    edges: TensorView<S>,
    r: TensorView<S>,
    node: int,
    f: int,
)
    requires
        src.len() == dst.len(),
        gathered(nodes, src, edges),
        scatter_gives(edges, dst, num_nodes, r),
        0 <= node < num_nodes,
        0 <= f < nodes.shape[1],
    ensures
        sum_gives(messages(nodes, src, dst, node, f, dst.len()), r.at(node, f)),
{
    lemma_inbox_is_messages(nodes, src, dst, edges, node, f, dst.len());
    assert(sum_gives(inbox(edges, dst, node, f, dst.len()), r.at(node, f)));
}

proof fn lemma_inbox_is_messages<S>(
    nodes: TensorView<S>,
    src: Seq<usize>,
    dst: Seq<usize>,
    edges: TensorView<S>,
    node: int,
    f: int,
    n: nat,
)
    requires
        src.len() == dst.len(),
        n <= dst.len(),
        gathered(nodes, src, edges),
        0 <= f < nodes.shape[1],
    ensures
        inbox(edges, dst, node, f, n) == messages(nodes, src, dst, node, f, n),
    decreases n,
{
    if n > 0 {
        lemma_inbox_is_messages(nodes, src, dst, edges, node, f, (n - 1) as nat);
        assert(edges.at(n - 1, f) == nodes.at(src[n - 1] as int, f));
    }
}

/// A fresh network takes every batch whose results are addressable, and its
/// logits have one column for each output.
pub proof fn fresh_network_accepts<S: Scalar>(
    dims: Seq<usize>,
    seeds: Seq<u64>,
    layers: Seq<LinearView<S>>,
    batch: usize,
)
    requires
        dims.len() >= 2,
        layers.len() == dims.len() - 1,
        seeds.len() == layers.len(),
        forall|i: int|
            0 <= i < layers.len() ==> fresh_linear_gives(
                dims[i],
                dims[i + 1],
                seeds[i],
                #[trigger] layers[i],
            ),
        forall|i: int| 1 <= i < dims.len() ==> batch * #[trigger] dims[i] <= usize::MAX,
    ensures
        accepts_all(layers, seq![batch, dims[0]]),
        flow(layers, seq![batch, dims[0]], layers.len()) == seq![batch, dims.last()],
{
    let shape = seq![batch, dims[0]];
    assert forall|i: int| 0 <= i < layers.len() implies #[trigger] accepts_at(
        layers,
        shape,
        i,
    ) by {
        assert(fresh_linear_gives(dims[i], dims[i + 1], seeds[i], layers[i]));
        assert(batch * dims[i + 1] <= usize::MAX);
        if i > 0 {
            assert(fresh_linear_gives(dims[i - 1], dims[i], seeds[i - 1], layers[i - 1]));
        }
    }
    let last = layers.len() - 1;
    assert(fresh_linear_gives(dims[last], dims[last + 1], seeds[last], layers[last]));
}

proof fn lemma_linear_row<S: Scalar>(
    eq: spec_fn(S, S) -> bool,
    layer: LinearView<S>,
    x: TensorView<S>,
    y: TensorView<S>,
    i: int,
    x2: TensorView<S>,
    y2: TensorView<S>,
    k: int,
)
    requires
        respects(eq),
        layer.bias.shape.len() == 1,
        layer.accepts(x.shape),
        layer.accepts(x2.shape),
        linear_gives(layer, x, y),
        linear_gives(layer, x2, y2),
        0 <= i < x.shape[0],
        0 <= k < x2.shape[0],
        seq_alike(eq, x.row(i), x2.row(k)),
    ensures
        y.wf(),
        y2.wf(),
        y.shape == seq![x.shape[0], layer.weight.shape[1]],
        y2.shape == seq![x2.shape[0], layer.weight.shape[1]],
        seq_alike(eq, y.row(i), y2.row(k)),
{
    let w = layer.weight;
    let xw = choose|xw: TensorView<S>| #[trigger]
        matmul_gives(x, w, xw) && add_gives(xw, layer.bias, y);
    let xw2 = choose|xw: TensorView<S>| #[trigger]
        matmul_gives(x2, w, xw) && add_gives(xw, layer.bias, y2);
    assert(xw.shape.len() == 2 && xw2.shape.len() == 2);
    assert forall|j: int| 0 <= j < w.shape[1] implies eq(y.row(i)[j], y2.row(k)[j]) by {
        let ws = w.column(j);
        dot_is_deterministic(
            eq,
            x.row(i),
            ws,
            xw.at(i, j),
            x2.row(k),
            ws,
            xw2.at(k, j),
            w.shape[0] as nat,
        );
        assert(eq(layer.bias.data[j], layer.bias.data[j]));
        assert(plus_gives(xw.at(i, j), layer.bias.data[j], y.at(i, j)));
        assert(plus_gives(xw2.at(k, j), layer.bias.data[j], y2.at(k, j)));
    }
}

proof fn lemma_relu_row<S: Scalar>(
    eq: spec_fn(S, S) -> bool,
    y: TensorView<S>,
    r: TensorView<S>,
    i: int,
    y2: TensorView<S>,
    r2: TensorView<S>,
    k: int,
)
    requires
        respects(eq),
        y.matrix(),
        y2.matrix(),
        y.shape[1] == y2.shape[1],
        relu_gives(y, r),
        relu_gives(y2, r2),
        0 <= i < y.shape[0],
        0 <= k < y2.shape[0],
        seq_alike(eq, y.row(i), y2.row(k)),
    ensures
        seq_alike(eq, r.row(i), r2.row(k)),
{
    let cols = y.shape[1] as nat;
    lemma_product_2(y.shape);
    lemma_product_2(y2.shape);
    assert forall|j: int| 0 <= j < cols implies eq(r.row(i)[j], r2.row(k)[j]) by {
        lemma_cell_inside(y.shape[0] as nat, cols, i, j);
        lemma_cell_inside(y2.shape[0] as nat, cols, k, j);
        assert(eq(y.row(i)[j], y2.row(k)[j]));
        assert(relu_elem_gives(y.row(i)[j], r.data[i * cols + j]));
        assert(relu_elem_gives(y2.row(k)[j], r2.data[k * cols + j]));
        assert(r.row(i)[j] == r.data[i * cols + j] && r2.row(k)[j] == r2.data[k * cols + j]);
    }
}

proof fn lemma_layer_row<S: Scalar>(
    eq: spec_fn(S, S) -> bool,
    layers: Seq<LinearView<S>>,
    l: int,
    h: TensorView<S>,
    y: TensorView<S>,
    i: int,
    h2: TensorView<S>,
    y2: TensorView<S>,
    k: int,
)
    requires
        respects(eq),
        layers[l].bias.shape.len() == 1,
        layers[l].accepts(h.shape),
        layers[l].accepts(h2.shape),
        layer_gives(layers, l, h, y),
        layer_gives(layers, l, h2, y2),
        0 <= i < h.shape[0],
        0 <= k < h2.shape[0],
        seq_alike(eq, h.row(i), h2.row(k)),
    ensures
        y.shape == seq![h.shape[0], layers[l].weight.shape[1]],
        y2.shape == seq![h2.shape[0], layers[l].weight.shape[1]],
        seq_alike(eq, y.row(i), y2.row(k)),
{
    let layer = layers[l];
    if l == layers.len() - 1 {
        lemma_linear_row(eq, layer, h, y, i, h2, y2, k);
    } else {
        let z = choose|z: TensorView<S>| #[trigger] linear_gives(layer, h, z) && relu_gives(z, y);
        let z2 = choose|z: TensorView<S>| #[trigger]
            linear_gives(layer, h2, z) && relu_gives(z, y2);
        lemma_linear_row(eq, layer, h, z, i, h2, z2, k);
        lemma_relu_row(eq, z, y, i, z2, y2, k);
    }
}

proof fn lemma_layers_row<S: Scalar>(
    eq: spec_fn(S, S) -> bool,
    layers: Seq<LinearView<S>>,
    n: nat,
    x: TensorView<S>,
    y: TensorView<S>,
    i: int,
    x2: TensorView<S>,
    y2: TensorView<S>,
    k: int,
)
    requires
        respects(eq),
        forall|l: int| 0 <= l < layers.len() ==> (#[trigger] layers[l]).bias.shape.len() == 1,
        accepts_all(layers, x.shape),
        accepts_all(layers, x2.shape),
        n <= layers.len(),
        layers_give(layers, x, n, y),
        layers_give(layers, x2, n, y2),
        0 <= i < x.shape[0],
        0 <= k < x2.shape[0],
        seq_alike(eq, x.row(i), x2.row(k)),
    ensures
        y.shape == flow(layers, x.shape, n),
        y2.shape == flow(layers, x2.shape, n),
        seq_alike(eq, y.row(i), y2.row(k)),
    decreases n,
{
    if n > 0 {
        let m = (n - 1) as nat;
        let h = choose|h: TensorView<S>|
            layers_give(layers, x, m, h) && #[trigger] layer_gives(layers, n - 1, h, y);
        let h2 = choose|h: TensorView<S>|
            layers_give(layers, x2, m, h) && #[trigger] layer_gives(layers, n - 1, h, y2);
        lemma_layers_row(eq, layers, m, x, h, i, x2, h2, k);
        assert(accepts_at(layers, x.shape, n - 1));
        assert(accepts_at(layers, x2.shape, n - 1));
        lemma_layer_row(eq, layers, n - 1, h, y, i, h2, y2, k);
    }
}

/// A network judges each sample alone: the logits of a sample do not depend on
/// the batch that it comes in.
pub proof fn samples_do_not_mix<S: Scalar>(
    eq: spec_fn(S, S) -> bool,
    layers: Seq<LinearView<S>>,
    x: TensorView<S>,
    y: TensorView<S>,
    i: int,
    x2: TensorView<S>,
    y2: TensorView<S>,
    k: int,
)
    requires
        respects(eq),
        forall|l: int| 0 <= l < layers.len() ==> (#[trigger] layers[l]).bias.shape.len() == 1,
        accepts_all(layers, x.shape),
        accepts_all(layers, x2.shape),
        layers_give(layers, x, layers.len(), y),
        layers_give(layers, x2, layers.len(), y2),
        0 <= i < x.shape[0],
        0 <= k < x2.shape[0],
        seq_alike(eq, x.row(i), x2.row(k)),
    ensures
        seq_alike(eq, y.row(i), y2.row(k)),
{
    lemma_layers_row(eq, layers, layers.len(), x, y, i, x2, y2, k);
}

proof fn lemma_same_class<S: Scalar>(
    eq: spec_fn(S, S) -> bool,
    y: TensorView<S>,
    preds: Seq<usize>,
    i: int,
    y2: TensorView<S>,
    preds2: Seq<usize>,
    k: int,
)
    requires
        respects(eq),
        y.shape.len() == 2,
        y2.shape.len() == 2,
        y.shape[1] == y2.shape[1],
        argmax_rows_gives(y, preds),
        argmax_rows_gives(y2, preds2),
        0 <= i < y.shape[0],
        0 <= k < y2.shape[0],
        seq_alike(eq, y.row(i), y2.row(k)),
    ensures
        preds[i] == preds2[k],
{
    lemma_product_1(y.shape.drop_last());
    lemma_product_1(y2.shape.drop_last());
    let cols = y.shape[1] as nat;
    assert(preds[i] < cols && preds2[k] < cols);
    argmax_is_deterministic(eq, y.row(i), preds[i] as int, y2.row(k), preds2[k] as int, cols);
}

/// A network predicts each sample alone: the class of a sample does not depend
/// on the batch that it comes in.
pub proof fn predictions_do_not_mix<S: Scalar>(
    eq: spec_fn(S, S) -> bool,
    layers: Seq<LinearView<S>>,
    x: TensorView<S>,
    preds: Seq<usize>,
    i: int,
    x2: TensorView<S>,
    preds2: Seq<usize>,
    k: int,
)
    requires
        respects(eq),
        layers.len() > 0,
        forall|l: int| 0 <= l < layers.len() ==> (#[trigger] layers[l]).bias.shape.len() == 1,
        accepts_all(layers, x.shape),
        accepts_all(layers, x2.shape),
        predict_gives(layers, x, Some(preds)),
        predict_gives(layers, x2, Some(preds2)),
        0 <= i < x.shape[0],
        0 <= k < x2.shape[0],
        seq_alike(eq, x.row(i), x2.row(k)),
    ensures
        preds[i] == preds2[k],
{
    let y = choose|y: TensorView<S>| #[trigger] predict_via(layers, x, y, Some(preds));
    let y2 = choose|y: TensorView<S>| #[trigger] predict_via(layers, x2, y, Some(preds2));
    samples_do_not_mix(eq, layers, x, y, i, x2, y2, k);
    lemma_same_class(eq, y, preds, i, y2, preds2, k);
}

proof fn lemma_rest_of_layers<S: Scalar>(
    layers: Seq<LinearView<S>>,
    i: int,
    h: TensorView<S>,
    r: TensorView<S>,
)
    requires
        1 <= i < layers.len(),
    ensures
        layer_gives(layers, i, h, r) <==> layer_gives(layers.skip(1), i - 1, h, r),
{
    assert(layers.skip(1)[i - 1] == layers[i]);
}

proof fn lemma_first_layer_off<S: Scalar>(
    layers: Seq<LinearView<S>>,
    x: TensorView<S>,
    n: nat,
    y: TensorView<S>,
) -> (h: TensorView<S>)
    requires
        1 <= n <= layers.len(),
        layers_give(layers, x, n, y),
    ensures
        layer_gives(layers, 0, x, h),
        layers_give(layers.skip(1), h, (n - 1) as nat, y),
    decreases n,
{
    let m = (n - 1) as nat;
    let g = choose|g: TensorView<S>|
        layers_give(layers, x, m, g) && #[trigger] layer_gives(layers, n - 1, g, y);
    if m == 0 {
        y
    } else {
        let h = lemma_first_layer_off(layers, x, m, g);
        lemma_rest_of_layers(layers, n - 1, g, y);
        lemma_layers_extend(layers.skip(1), h, (m - 1) as nat, g, y);
        h
    }
}

proof fn lemma_first_layer_on<S: Scalar>(
    layers: Seq<LinearView<S>>,
    x: TensorView<S>,
    h: TensorView<S>,
    n: nat,
    y: TensorView<S>,
)
    requires
        n < layers.len(),
        layer_gives(layers, 0, x, h),
        layers_give(layers.skip(1), h, n, y),
    ensures
        layers_give(layers, x, n + 1, y),
    decreases n,
{
    if n == 0 {
        assert(layers_give(layers, x, 0, x));
        lemma_layers_extend(layers, x, 0, x, y);
    } else {
        let m = (n - 1) as nat;
        let g = choose|g: TensorView<S>|
            layers_give(layers.skip(1), h, m, g) && #[trigger] layer_gives(
                layers.skip(1),
                n - 1,
                g,
                y,
            );
        lemma_first_layer_on(layers, x, h, m, g);
        lemma_rest_of_layers(layers, n as int, g, y);
        lemma_layers_extend(layers, x, n, g, y);
    }
}

/// `h` is the ReLU of what a layer gives for `x`.
pub open spec fn hidden_gives<S: Scalar>(
    layer: LinearView<S>,
    x: TensorView<S>,
    h: TensorView<S>,
) -> bool {
    exists|y: TensorView<S>| #[trigger] linear_gives(layer, x, y) && relu_gives(y, h)
}

/// The first layer comes off: a network of one layer is that layer, without a
/// ReLU, and a larger one is the network of the other layers on the ReLU of
/// what the first one gives.
pub proof fn first_layer_comes_off<S: Scalar>(
    layers: Seq<LinearView<S>>,
    x: TensorView<S>,
    y: TensorView<S>,
)
    requires
        layers.len() > 0,
    ensures
        layers.len() == 1 ==> (layers_give(layers, x, layers.len(), y) <==> linear_gives(
            layers[0],
            x,
            y,
        )),
        layers.len() > 1 ==> (layers_give(layers, x, layers.len(), y) <==> exists|
            h: TensorView<S>,
        | #[trigger]
            hidden_gives(layers[0], x, h) && layers_give(
                layers.skip(1),
                h,
                layers.skip(1).len(),
                y,
            )),
{
    let n = layers.len();
    let rest = layers.skip(1);
    let m = (n - 1) as nat;
    if layers_give(layers, x, n, y) {
        let h = lemma_first_layer_off(layers, x, n, y);
        if n > 1 {
            assert(hidden_gives(layers[0], x, h));
        }
    }
    if n == 1 && linear_gives(layers[0], x, y) {
        assert(layers_give(rest, y, 0, y));
        lemma_first_layer_on(layers, x, y, 0, y);
    }
    if n > 1 && exists|h: TensorView<S>| #[trigger]
        hidden_gives(layers[0], x, h) && layers_give(rest, h, m, y) {
        let h = choose|h: TensorView<S>| #[trigger]
            hidden_gives(layers[0], x, h) && layers_give(rest, h, m, y);
        assert(layer_gives(layers, 0, x, h));
        lemma_first_layer_on(layers, x, h, m, y);
    }
}

/// A network agrees with the network of its other layers on the ReLU of what
/// its first layer gives.
pub proof fn networks_agree_layer_by_layer<S: Scalar>(
    eq: spec_fn(S, S) -> bool,
    layers: Seq<LinearView<S>>,
    x: TensorView<S>,
    y: TensorView<S>,
    h: TensorView<S>,
    z: TensorView<S>,
)
    requires
        respects(eq),
        layers.len() > 1,
        x.dense(),
        accepts_all(layers, x.shape),
        layers_give(layers, x, layers.len(), y),
        hidden_gives(layers[0], x, h),
        layers_give(layers.skip(1), h, layers.skip(1).len(), z),
    ensures
        alike(eq, y, z),
{
    first_layer_comes_off(layers, x, z);
    forward_is_deterministic(eq, layers, x, y, layers, x, z);
}

/// Where the elements are ordered by a key, the search for the greatest place
/// finds the last of the greatest elements.
pub proof fn argmax_is_last_greatest<S: Scalar>(
    xs: Seq<S>,
    n: nat,
    best: int,
    key: spec_fn(S) -> int,
)
    requires
        n <= xs.len(),
        argmax_gives(xs, n, best),
        forall|a: S, b: S, o: Order| #[trigger]
            order_gives(a, b, o) && o != Order::Unordered ==> (o == Order::Greater <==> key(a)
                > key(b)),
    ensures
        0 <= best < n,
        forall|i: int| 0 <= i < n ==> key(#[trigger] xs[i]) <= key(xs[best]),
        forall|i: int| best < i < n ==> key(#[trigger] xs[i]) < key(xs[best]),
    decreases n,
{
    if n > 1 {
        let m = (n - 1) as nat;
        let (b, o) = choose|b: int, o: Order|
            {
                &&& argmax_gives(xs, m, b)
                &&& #[trigger] order_gives(xs[b], xs[n - 1], o)
                &&& o != Order::Unordered
                &&& best == (if o == Order::Greater {
                    b
                } else {
                    n - 1
                })
            };
        argmax_is_last_greatest(xs, m, b, key);
    }
}

/// Where the elements are ordered by a key, the prediction for each sample is
/// the last of its greatest logits.
pub proof fn predictions_are_last_greatest<S: Scalar>(
    layers: Seq<LinearView<S>>,
    x: TensorView<S>,
    preds: Seq<usize>,
    key: spec_fn(S) -> int,
) -> (y: TensorView<S>)
    requires
        predict_gives(layers, x, Some(preds)),
        forall|a: S, b: S, o: Order| #[trigger]
            order_gives(a, b, o) && o != Order::Unordered ==> (o == Order::Greater <==> key(a)
                > key(b)),
    ensures
        layers_give(layers, x, layers.len(), y),
        y.shape == seq![x.shape[0], layers.last().weight.shape[1]],
        preds.len() == x.shape[0],
        forall|i: int| 0 <= i < preds.len() ==> #[trigger] preds[i] < y.shape[1],
        forall|i: int, c: int|
            0 <= i < preds.len() && 0 <= c < y.shape[1] ==> key(#[trigger] y.at(i, c)) <= key(
                y.at(i, preds[i] as int),
            ),
        forall|i: int, c: int|
            0 <= i < preds.len() && preds[i] < c < y.shape[1] ==> key(#[trigger] y.at(i, c)) < key(
                y.at(i, preds[i] as int),
            ),
{
    let y = choose|y: TensorView<S>| #[trigger] predict_via(layers, x, y, Some(preds));
    let cols = y.shape[1] as nat;
    assert(y.shape.drop_last() =~= seq![x.shape[0]]);
    lemma_product_1(y.shape.drop_last());
    assert forall|i: int, c: int| 0 <= i < preds.len() && 0 <= c < cols implies key(
        #[trigger] y.at(i, c),
    ) <= key(y.at(i, preds[i] as int)) && (preds[i] < c ==> key(y.at(i, c)) < key(
        y.at(i, preds[i] as int),
    )) by {
        assert(preds[i] < cols);
        argmax_is_last_greatest(y.row(i), cols, preds[i] as int, key);
        assert(y.row(i)[c] == y.at(i, c) && y.row(i)[preds[i] as int] == y.at(i, preds[i] as int));
    }
    y
}

/// A file whose names differ holds a tensor for every entry.
pub proof fn distinct_names_are_all_kept<S: Scalar>(
    entries: Seq<Entry>,
    m: Map<Seq<char>, Tensor<S>>,
    i: int,
)
    requires
        tensors_give(entries, m),
        forall|a: int, b: int|
            0 <= a < b < entries.len() ==> (#[trigger] entries[a]).name != (
            #[trigger] entries[b]).name,
        0 <= i < entries.len(),
    ensures
        m.contains_key(entries[i].name),
        entry_gives(entries[i], m[entries[i].name]@),
{
    assert(is_last_of_name(entries, i));
    assert(last_counts(entries, m, i));
    assert(named(entries, entries[i].name));
    assert(m.contains_key(entries[i].name));
}

/// Saved tensors are restored: a tensor whose entry was written under a name
/// of its own is what the name leads to when the file is read, whatever
/// follows the file.
pub proof fn saved_tensors_are_restored<S: Scalar>(
    eq: spec_fn(S, S) -> bool,
    entries: Seq<Entry>,
    trailing: Seq<u8>,
    m: Map<Seq<char>, Tensor<S>>,
    i: int,
    t: TensorView<S>,
)
    requires
        respects(eq),
        all_encodable(entries),
        forall|a: int, b: int|
            0 <= a < b < entries.len() ==> (#[trigger] entries[a]).name != (
            #[trigger] entries[b]).name,
        0 <= i < entries.len(),
        entry_gives(entries[i], t),
        file_entries(file_bytes(entries) + trailing) matches Ok((found, _)) ==> tensors_give(
            found,
            m,
        ),
    ensures
        m.contains_key(entries[i].name),
        alike(eq, m[entries[i].name]@, t),
{
    written_file_reads_back(entries, trailing);
    distinct_names_are_all_kept(entries, m, i);
    entry_is_deterministic(eq, entries[i], m[entries[i].name]@, t);
}

} // verus!
