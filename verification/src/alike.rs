//! Lists, tensors and layers that agree element by element.
use vstd::prelude::*;

use crate::grid::{cell, lemma_cell_inside, lemma_place_cell, row};
use crate::nn::LinearView;
use crate::scalar::same_but_for;
use crate::shape::lemma_product_2;
use crate::tensor::{inbox, TensorView};

verus! {

/// Two lists agree element by element.
pub open spec fn seq_alike<S>(eq: spec_fn(S, S) -> bool, xs: Seq<S>, ys: Seq<S>) -> bool {
    &&& xs.len() == ys.len()
    &&& forall|i: int|
        #![trigger xs[i]]
        #![trigger ys[i]]
        0 <= i < xs.len() ==> eq(xs[i], ys[i])
}

/// Two tensors have one shape and agree element by element.
pub open spec fn alike<S>(eq: spec_fn(S, S) -> bool, r: TensorView<S>, q: TensorView<S>) -> bool {
    &&& r.shape == q.shape
    &&& r.strides == q.strides
    &&& seq_alike(eq, r.data, q.data)
}

/// Two layers agree element by element.
pub open spec fn layer_alike<S>(
    eq: spec_fn(S, S) -> bool,
    l: LinearView<S>,
    k: LinearView<S>,
) -> bool {
    alike(eq, l.weight, k.weight) && alike(eq, l.bias, k.bias)
}

/// Two stacks of layers agree layer by layer.
pub open spec fn layers_alike<S>(
    eq: spec_fn(S, S) -> bool,
    ls: Seq<LinearView<S>>,
    ks: Seq<LinearView<S>>,
) -> bool {
    &&& ls.len() == ks.len()
    &&& forall|i: int|
        #![trigger ls[i]]
        #![trigger ks[i]]
        0 <= i < ls.len() ==> layer_alike(eq, ls[i], ks[i])
}

/// No element of a list is NaN.
pub open spec fn free_of<S>(nan: spec_fn(S) -> bool, xs: Seq<S>) -> bool {
    forall|i: int| 0 <= i < xs.len() ==> !nan(#[trigger] xs[i])
}

/// Tensors that agree but for NaN are the same where one of them has none.
pub proof fn alike_without_nan_is_same<S>(
    nan: spec_fn(S) -> bool,
    r: TensorView<S>,
    q: TensorView<S>,
)
    requires
        alike(same_but_for(nan), r, q),
        free_of(nan, r.data),
    ensures
        r == q,
{
    assert forall|i: int| 0 <= i < r.data.len() implies r.data[i] == q.data[i] by {
        assert(same_but_for(nan)(r.data[i], q.data[i]));
    }
    assert(r.data =~= q.data);
}

/// Well-formed tensors of one shape whose elements agree are alike.
pub proof fn lemma_alike<S>(eq: spec_fn(S, S) -> bool, r: TensorView<S>, q: TensorView<S>)
    requires
        r.wf(),
        q.wf(),
        r.shape == q.shape,
        forall|i: int| 0 <= i < r.data.len() ==> eq(#[trigger] r.data[i], q.data[i]),
    ensures
        alike(eq, r, q),
{
    assert(r.strides =~= q.strides);
}

/// Matrices of one shape whose cells agree have elements that agree.
pub proof fn lemma_cells_alike<S>(eq: spec_fn(S, S) -> bool, r: TensorView<S>, q: TensorView<S>)
    requires
        r.matrix(),
        q.matrix(),
        r.shape == q.shape,
        forall|i: int, j: int|
            0 <= i < r.shape[0] && 0 <= j < r.shape[1] ==> eq(#[trigger] r.at(i, j), q.at(i, j)),
    ensures
        seq_alike(eq, r.data, q.data),
        r.wf() && q.wf() ==> alike(eq, r, q),
{
    lemma_product_2(r.shape);
    let rows = r.shape[0] as nat;
    let cols = r.shape[1] as nat;
    assert forall|p: int| 0 <= p < r.data.len() implies eq(#[trigger] r.data[p], q.data[p]) by {
        lemma_place_cell(rows, cols, p);
        let i = p / (cols as int);
        let j = p % (cols as int);
        assert(eq(r.at(i, j), q.at(i, j)));
    }
    if r.wf() && q.wf() {
        lemma_alike(eq, r, q);
    }
}

/// The rows of arrays that agree agree.
pub proof fn lemma_rows_alike<S>(
    eq: spec_fn(S, S) -> bool,
    a: Seq<S>,
    b: Seq<S>,
    rows: nat,
    cols: nat,
    i: int,
)
    requires
        seq_alike(eq, a, b),
        a.len() == rows * cols,
        0 <= i < rows,
    ensures
        seq_alike(eq, row(a, cols, i), row(b, cols, i)),
{
    assert forall|j: int| 0 <= j < cols implies eq(cell(a, cols, i, j), cell(b, cols, i, j)) by {
        lemma_cell_inside(rows, cols, i, j);
    }
}

/// The columns of matrices that agree agree.
pub proof fn lemma_columns_alike<S>(
    eq: spec_fn(S, S) -> bool,
    a: TensorView<S>,
    b: TensorView<S>,
    j: int,
)
    requires
        a.matrix(),
        alike(eq, a, b),
        0 <= j < a.shape[1],
    ensures
        seq_alike(eq, a.column(j), b.column(j)),
{
    lemma_product_2(a.shape);
    assert forall|i: int| 0 <= i < a.shape[0] implies eq(
        #[trigger] a.column(j)[i],
        b.column(j)[i],
    ) by {
        lemma_cell_inside(a.shape[0] as nat, a.shape[1] as nat, i, j);
    }
}

/// The cells of matrices that agree agree.
pub proof fn lemma_cell_alike<S>(
    eq: spec_fn(S, S) -> bool,
    a: TensorView<S>,
    b: TensorView<S>,
    i: int,
    j: int,
)
    requires
        a.matrix(),
        alike(eq, a, b),
        0 <= i < a.shape[0],
        0 <= j < a.shape[1],
    ensures
        eq(a.at(i, j), b.at(i, j)),
{
    lemma_product_2(a.shape);
    lemma_cell_inside(a.shape[0] as nat, a.shape[1] as nat, i, j);
}

/// What a node receives from matrices that agree agrees.
pub proof fn lemma_inbox_alike<S>(
    eq: spec_fn(S, S) -> bool,
    a: TensorView<S>,
    b: TensorView<S>,
    index: Seq<usize>,
    node: int,
    f: int,
    n: nat,
)
    requires
        a.matrix(),
        alike(eq, a, b),
        n <= a.shape[0],
        0 <= f < a.shape[1],
    ensures
        seq_alike(eq, inbox(a, index, node, f, n), inbox(b, index, node, f, n)),
    decreases n,
{
    if n > 0 {
        lemma_inbox_alike(eq, a, b, index, node, f, (n - 1) as nat);
        lemma_cell_alike(eq, a, b, n - 1, f);
    }
}

} // verus!
