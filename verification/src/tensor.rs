//! Strided N-d tensors: row-major, contiguous storage with explicit strides.
use vstd::prelude::*;

use crate::grid::{cell, column, lemma_cell_inside, lemma_push_cell, lemma_set_cell, row};
use crate::reduce::{
    distance_gives, distance_via, dot_gives, lemma_dot_extend, peak, relu_elem_gives,
    shifted_exp_gives, softmax_gives, softmax_via, square_diff_gives, sum, sum_gives,
};
use crate::scalar::{
    exp_gives, is_zero_gives, maximum_gives, over_gives, plus_gives, times_gives, zero_gives,
};
use crate::scalar::Scalar;
use crate::shape::{
    checked_product, checked_strides, copied, countable, fits, lemma_fits_2, lemma_product_1,
    lemma_product_2, product, row_major, row_major_strides, same_shape, shape_product,
};

verus! {

/// An N-d array: its elements in row-major order, its dimensions, and how far
/// one step in each dimension goes.
#[derive(Debug)]
pub struct Tensor<S> {
    pub data: Vec<S>,
    pub shape: Vec<usize>,
    pub strides: Vec<usize>,
}

/// The value of a [`Tensor`].
#[verifier::ext_equal]
pub struct TensorView<S> {
    pub data: Seq<S>,
    pub shape: Seq<usize>,
    pub strides: Seq<usize>,
}

impl<S> View for Tensor<S> {
    type V = TensorView<S>;

    open spec fn view(&self) -> TensorView<S> {
        TensorView { data: self.data@, shape: self.shape@, strides: self.strides@ }
    }
}

impl<S> TensorView<S> {
    /// There is one element for each index that the shape admits.
    pub open spec fn dense(self) -> bool {
        fits(self.shape) && self.data.len() == product(self.shape)
    }

    /// The tensor is dense and its strides are row-major.
    pub open spec fn wf(self) -> bool {
        self.dense() && row_major(self.shape, self.strides)
    }

    /// A dense tensor of two dimensions.
    pub open spec fn matrix(self) -> bool {
        self.dense() && self.shape.len() == 2
    }

    /// The element in row `i` and column `j` of a matrix.
    pub open spec fn at(self, i: int, j: int) -> S {
        cell(self.data, self.shape[1] as nat, i, j)
    }

    /// Row `i` of a matrix.
    pub open spec fn row(self, i: int) -> Seq<S> {
        row(self.data, self.shape[1] as nat, i)
    }

    /// Column `j` of a matrix.
    pub open spec fn column(self, j: int) -> Seq<S> {
        column(self.data, self.shape[0] as nat, self.shape[1] as nat, j)
    }
}

/// The tensor of this shape with these elements.
pub open spec fn holds<S>(t: TensorView<S>, data: Seq<S>, shape: Seq<usize>) -> bool {
    t.data == data && t.shape == shape && t.wf()
}

/// A tensor of shape `b` can be added to one of shape `a`: the shapes are the
/// same, or `b` is one row for a matrix.
pub open spec fn addable(a: Seq<usize>, b: Seq<usize>) -> bool {
    a == b || (a.len() == 2 && b.len() == 1 && a[1] == b[0])
}

/// `r` is `a + b`, with `b` added to every row of `a` where the shapes differ.
pub open spec fn add_gives<S: Scalar>(
    a: TensorView<S>,
    b: TensorView<S>,
    r: TensorView<S>,
) -> bool {
    &&& r.wf()
    &&& r.shape == a.shape
    &&& if a.shape == b.shape {
        forall|i: int| 0 <= i < a.data.len() ==> plus_gives(a.data[i], b.data[i], #[trigger] r.data[i])
    } else {
        forall|i: int, j: int|
            0 <= i < a.shape[0] && 0 <= j < a.shape[1] ==> plus_gives(
                a.at(i, j),
                b.data[j],
                #[trigger] r.at(i, j),
            )
    }
}

/// `r` is `a` with its negative elements replaced by zero.
pub open spec fn relu_gives<S: Scalar>(a: TensorView<S>, r: TensorView<S>) -> bool {
    &&& r.wf()
    &&& r.shape == a.shape
    &&& forall|i: int| 0 <= i < a.data.len() ==> relu_elem_gives(a.data[i], #[trigger] r.data[i])
}

/// `r` is `a` with the softmax taken of each run of elements along the last
/// dimension.
pub open spec fn softmax_lastdim_gives<S: Scalar>(a: TensorView<S>, r: TensorView<S>) -> bool {
    let cols = a.shape.last() as nat;
    &&& r.wf()
    &&& r.shape == a.shape
    &&& forall|i: int|
        0 <= i < product(a.shape.drop_last()) ==> softmax_gives(
            row(a.data, cols, i),
            #[trigger] row(r.data, cols, i),
        )
}

/// `r` is the matrix product of `a` and `b`.
pub open spec fn matmul_gives<S: Scalar>(
    a: TensorView<S>,
    b: TensorView<S>,
    r: TensorView<S>,
) -> bool {
    &&& r.wf()
    &&& r.shape == seq![a.shape[0], b.shape[1]]
    &&& forall|i: int, j: int|
        0 <= i < a.shape[0] && 0 <= j < b.shape[1] ==> dot_gives(
            a.row(i),
            b.column(j),
            a.shape[1] as nat,
            #[trigger] r.at(i, j),
        )
}

/// Row `e` of `r` is row `index[e]` of `a`.
pub open spec fn gathered<S>(a: TensorView<S>, index: Seq<usize>, r: TensorView<S>) -> bool {
    &&& r.wf()
    &&& r.shape.len() == 2
    &&& r.shape[0] == index.len()
    &&& r.shape[1] == a.shape[1]
    &&& forall|e: int, f: int|
        0 <= e < index.len() && 0 <= f < a.shape[1] ==> #[trigger] r.at(e, f) == a.at(
            index[e] as int,
            f,
        )
}

/// Feature `f` of the rows of `a`, among the first `n`, that go to `node`, in
/// order.
pub open spec fn inbox<S>(a: TensorView<S>, index: Seq<usize>, node: int, f: int, n: nat) -> Seq<S>
    decreases n,
{
    if n == 0 {
        Seq::empty()
    } else if index[n - 1] == node {
        inbox(a, index, node, f, (n - 1) as nat).push(a.at(n - 1, f))
    } else {
        inbox(a, index, node, f, (n - 1) as nat)
    }
}

/// Row `node` of `r` is the sum of the rows of `a` that go to `node`.
pub open spec fn scatter_gives<S: Scalar>(
    a: TensorView<S>,
    index: Seq<usize>,
    num_nodes: nat,
    r: TensorView<S>,
) -> bool {
    &&& r.wf()
    &&& r.shape.len() == 2
    &&& r.shape[0] == num_nodes
    &&& r.shape[1] == a.shape[1]
    &&& forall|node: int, f: int|
        0 <= node < num_nodes && 0 <= f < a.shape[1] ==> sum_gives(
            inbox(a, index, node, f, index.len()),
            #[trigger] r.at(node, f),
        )
}

/// `n` copies of an element.
fn filled<S: Copy>(n: usize, v: S) -> (out: Vec<S>)
    ensures
        out@.len() == n,
        forall|i: int| 0 <= i < n ==> out@[i] == v,
{
    let mut out: Vec<S> = Vec::with_capacity(n);
    while out.len() < n
        invariant
            out@.len() <= n,
            forall|i: int| 0 <= i < out@.len() ==> out@[i] == v,
        decreases n - out@.len(),
    {
        out.push(v);
    }
    out
}

impl<S: Copy> Clone for Tensor<S> {
    fn clone(&self) -> (t: Self)
        ensures
            t@ == self@,
    {
        Tensor {
            data: copied(self.data.as_slice()),
            shape: copied(self.shape.as_slice()),
            strides: copied(self.strides.as_slice()),
        }
    }
}

impl<S: Scalar> Tensor<S> {
    /// The tensor of a shape with all elements zero.
    pub fn zeros(shape: &[usize]) -> (t: Self)
        requires
            fits(shape@),
        ensures
            t@.shape == shape@,
            t@.wf(),
            forall|i: int| 0 <= i < t@.data.len() ==> zero_gives(#[trigger] t@.data[i]),
    {
        let n: usize = shape_product(shape);
        let zero: S = S::zero();
        Tensor {
            data: filled(n, zero),
            shape: copied(shape),
            strides: row_major_strides(shape),
        }
    }

    /// The tensor of a shape with the given elements, in row-major order.
    pub fn from_vec(data: Vec<S>, shape: &[usize]) -> (t: Self)
        requires
            fits(shape@),
            data@.len() == product(shape@),
        ensures
            holds(t@, data@, shape@),
    {
        Tensor { data, shape: copied(shape), strides: row_major_strides(shape) }
    }

    /// Whether there is one element for each index that the shape admits.
    pub fn is_dense(&self) -> (b: bool)
        ensures
            b == self@.dense(),
    {
        match checked_product(self.shape.as_slice()) {
            None => false,
            Some(n) => match checked_strides(self.shape.as_slice()) {
                None => false,
                Some(_) => n == self.data.len(),
            },
        }
    }

    /// The number of elements that the shape admits.
    pub fn numel(&self) -> (n: usize)
        requires
            countable(self@.shape),
        ensures
            n == product(self@.shape),
    {
        shape_product(self.shape.as_slice())
    }

    /// The number of dimensions.
    pub fn ndim(&self) -> (n: usize)
        ensures
            n == self@.shape.len(),
    {
        self.shape.len()
    }

    /// The same elements in another shape.
    pub fn reshape(&self, shape: &[usize]) -> (t: Self)
        requires
            self@.dense(),
            fits(shape@),
            product(shape@) == product(self@.shape),
        ensures
            holds(t@, self@.data, shape@),
    {
        Tensor::from_vec(copied(self.data.as_slice()), shape)
    }

    /// The element that lies `i` steps in the first dimension and `j` steps in
    /// the second from the start.
    pub fn at2(&self, i: usize, j: usize) -> (x: S)
        requires
            self@.strides.len() >= 2,
            i * self@.strides[0] + j * self@.strides[1] < self@.data.len(),
        ensures
            x == self@.data[i * self@.strides[0] + j * self@.strides[1]],
    {
        proof {
            let s0 = self@.strides[0] as int;
            let s1 = self@.strides[1] as int;
            assert(self.data@.len() == self.data.len());
            assert(0 <= i * s0 && 0 <= j * s1) by (nonlinear_arith)
                requires
                    0 <= s0,
                    0 <= s1,
            ;
        }
        self.data[i * self.strides[0] + j * self.strides[1]]
    }

    /// The sum of two tensors of one shape, or of a matrix and a row that is
    /// added to each of its rows.
    pub fn add(&self, other: &Tensor<S>) -> (t: Tensor<S>)
        requires
            self@.dense(),
            other@.dense(),
            addable(self@.shape, other@.shape),
        ensures
            add_gives(self@, other@, t@),
    {
        if same_shape(self.shape.as_slice(), other.shape.as_slice()) {
            let n: usize = self.data.len();
            let mut data: Vec<S> = Vec::with_capacity(n);
            let mut i: usize = 0;
            while i < n
                invariant
                    i <= n,
                    n == self@.data.len(),
                    n == other@.data.len(),
                    data@.len() == i,
                    forall|p: int|
                        0 <= p < i ==> plus_gives(
                            self@.data[p],
                            other@.data[p],
                            #[trigger] data@[p],
                        ),
                decreases n - i,
            {
                data.push(self.data[i].plus(other.data[i]));
                i = i + 1;
            }
            return Tensor::from_vec(data, self.shape.as_slice());
        }
        let rows: usize = self.shape[0];
        let cols: usize = self.shape[1];
        let mut data: Vec<S> = copied(self.data.as_slice());
        proof {
            lemma_product_2(self@.shape);
            lemma_product_1(other@.shape);
        }
        let mut r: usize = 0;
        while r < rows
            invariant
                r <= rows,
                rows == self@.shape[0],
                cols == self@.shape[1],
                other@.data.len() == cols,
                self@.data.len() == rows * cols,
                data@.len() == rows * cols,
                forall|i: int, j: int|
                    0 <= i < r && 0 <= j < cols ==> plus_gives(
                        self@.at(i, j),
                        other@.data[j],
                        #[trigger] cell(data@, cols as nat, i, j),
                    ),
                forall|i: int, j: int|
                    r <= i < rows && 0 <= j < cols ==> #[trigger] cell(data@, cols as nat, i, j)
                        == self@.at(i, j),
            decreases rows - r,
        {
            let mut c: usize = 0;
            while c < cols
                invariant
                    r < rows,
                    c <= cols,
                    rows == self@.shape[0],
                    cols == self@.shape[1],
                    other@.data.len() == cols,
                    self@.data.len() == rows * cols,
                    data@.len() == rows * cols,
                    forall|i: int, j: int|
                        (0 <= i < r && 0 <= j < cols) || (i == r && 0 <= j < c) ==> plus_gives(
                            self@.at(i, j),
                            other@.data[j],
                            #[trigger] cell(data@, cols as nat, i, j),
                        ),
                    forall|i: int, j: int|
                        (r < i < rows && 0 <= j < cols) || (i == r && c <= j < cols)
                            ==> #[trigger] cell(data@, cols as nat, i, j) == self@.at(i, j),
                decreases cols - c,
            {
                proof {
                    assert(data@.len() == data.len());
                    lemma_cell_inside(rows as nat, cols as nat, r as int, c as int);
                    assert(cell(data@, cols as nat, r as int, c as int) == self@.at(
                        r as int,
                        c as int,
                    ));
                }
                let ghost before = data@;
                let v: S = data[r * cols + c].plus(other.data[c]);
                data[r * cols + c] = v;
                proof {
                    lemma_set_cell(before, rows as nat, cols as nat, r as int, c as int, v);
                }
                c = c + 1;
            }
            r = r + 1;
        }
        Tensor::from_vec(data, self.shape.as_slice())
    }

    /// The tensor with negative elements replaced by zero.
    pub fn relu(&self) -> (t: Tensor<S>)
        requires
            self@.dense(),
        ensures
            relu_gives(self@, t@),
    {
        let n: usize = self.data.len();
        let mut data: Vec<S> = Vec::with_capacity(n);
        let mut i: usize = 0;
        while i < n
            invariant
                i <= n,
                n == self@.data.len(),
                data@.len() == i,
                forall|p: int|
                    0 <= p < i ==> relu_elem_gives(self@.data[p], #[trigger] data@[p]),
            decreases n - i,
        {
            let zero: S = S::zero();
            let v: S = self.data[i].maximum(zero);
            assert(maximum_gives(self@.data[i as int], zero, v));
            data.push(v);
            i = i + 1;
        }
        Tensor::from_vec(data, self.shape.as_slice())
    }

    /// Numerically stable softmax over the last dimension.
    pub fn softmax_lastdim(&self) -> (t: Tensor<S>)
        requires
            self@.dense(),
            self@.shape.len() > 0,
            self@.shape.last() > 0,
        ensures
            softmax_lastdim_gives(self@, t@),
    {
        let cols: usize = self.shape[self.shape.len() - 1];
        let n: usize = self.data.len();
        let rows: usize = n / cols;
        let ghost front = product(self@.shape.drop_last());
        proof {
            assert(n == front * cols);
            assert(rows == front) by {
                vstd::arithmetic::div_mod::lemma_div_multiples_vanish(front as int, cols as int);
                vstd::arithmetic::mul::lemma_mul_is_commutative(front as int, cols as int);
            }
        }
        let zero: S = S::zero();
        let mut data: Vec<S> = filled(n, zero);
        let mut r: usize = 0;
        while r < rows
            invariant
                r <= rows,
                0 < cols,
                n == rows * cols,
                n == self@.data.len(),
                data@.len() == n,
                forall|i: int|
                    0 <= i < r ==> softmax_gives(
                        row(self@.data, cols as nat, i),
                        #[trigger] row(data@, cols as nat, i),
                    ),
            decreases rows - r,
        {
            proof {
                lemma_cell_inside(rows as nat, cols as nat, r as int, 0);
                assert((r + 1) * cols == r * cols + cols) by (nonlinear_arith);
            }
            let from: usize = r * cols;
            let ghost xs = row(self@.data, cols as nat, r as int);
            let m: S = peak(self.data.as_slice(), from, from + cols);
            assert(self@.data.subrange(from as int, from + cols) =~= xs);
            let mut exps: Vec<S> = Vec::with_capacity(cols);
            let mut c: usize = 0;
            while c < cols
                invariant
                    c <= cols,
                    from + cols <= n,
                    n == self@.data.len(),
                    xs.len() == cols,
                    forall|j: int| 0 <= j < cols ==> #[trigger] xs[j] == self@.data[from + j],
                    exps@.len() == c,
                    forall|j: int| 0 <= j < c ==> shifted_exp_gives(xs[j], m, #[trigger] exps@[j]),
                decreases cols - c,
            {
                let d: S = self.data[from + c].minus(m);
                let e: S = d.exp();
                assert(xs[c as int] == self@.data[from + c]);
                assert(exp_gives(d, e));
                exps.push(e);
                c = c + 1;
            }
            let total: S = sum(exps.as_slice());
            let ghost before = data@;
            let mut c: usize = 0;
            while c < cols
                invariant
                    r < rows,
                    c <= cols,
                    from == r * cols,
                    from + cols <= n,
                    n == rows * cols,
                    exps@.len() == cols,
                    data@.len() == n,
                    before.len() == n,
                    forall|i: int, j: int|
                        0 <= i < r && 0 <= j < cols ==> #[trigger] cell(data@, cols as nat, i, j)
                            == cell(before, cols as nat, i, j),
                    forall|j: int|
                        0 <= j < c ==> over_gives(
                            exps@[j],
                            total,
                            #[trigger] cell(data@, cols as nat, r as int, j),
                        ),
                decreases cols - c,
            {
                let v: S = exps[c].over(total);
                proof {
                    lemma_set_cell(data@, rows as nat, cols as nat, r as int, c as int, v);
                }
                data[from + c] = v;
                c = c + 1;
            }
            proof {
                let ys = row(data@, cols as nat, r as int);
                assert forall|j: int| 0 <= j < xs.len() implies over_gives(
                    exps@[j],
                    total,
                    #[trigger] ys[j],
                ) by {
                    assert(ys[j] == cell(data@, cols as nat, r as int, j));
                }
                assert(softmax_via(xs, ys, m, exps@, total));
                assert forall|i: int| 0 <= i < r + 1 implies softmax_gives(
                    row(self@.data, cols as nat, i),
                    #[trigger] row(data@, cols as nat, i),
                ) by {
                    if i < r {
                        assert(row(data@, cols as nat, i) =~= row(before, cols as nat, i));
                    }
                }
            }
            r = r + 1;
        }
        Tensor::from_vec(data, self.shape.as_slice())
    }

    /// The matrix product `[m, k] x [k, n] -> [m, n]`. The inner loop walks a
    /// row of the right-hand side and a row of the result.
    pub fn matmul(&self, other: &Tensor<S>) -> (t: Tensor<S>)
        requires
            self@.matrix(),
            other@.matrix(),
            self@.shape[1] == other@.shape[0],
            self@.shape[0] * other@.shape[1] <= usize::MAX,
        ensures
            matmul_gives(self@, other@, t@),
    {
        let m: usize = self.shape[0];
        let k: usize = self.shape[1];
        let n: usize = other.shape[1];
        proof {
            lemma_product_2(self@.shape);
            lemma_product_2(other@.shape);
        }
        let zero: S = S::zero();
        let mut out: Vec<S> = filled(m * n, zero);
        proof {
            assert forall|i: int, j: int| 0 <= i < m && 0 <= j < n implies dot_gives(
                self@.row(i),
                other@.column(j),
                0,
                #[trigger] cell(out@, n as nat, i, j),
            ) by {
                lemma_cell_inside(m as nat, n as nat, i, j);
            }
        }
        let mut i: usize = 0;
        while i < m
            invariant
                i <= m,
                m == self@.shape[0],
                k == self@.shape[1],
                k == other@.shape[0],
                n == other@.shape[1],
                self@.data.len() == m * k,
                other@.data.len() == k * n,
                out@.len() == m * n,
                forall|a: int, b: int|
                    0 <= a < i && 0 <= b < n ==> dot_gives(
                        self@.row(a),
                        other@.column(b),
                        k as nat,
                        #[trigger] cell(out@, n as nat, a, b),
                    ),
                forall|a: int, b: int|
                    i <= a < m && 0 <= b < n ==> dot_gives(
                        self@.row(a),
                        other@.column(b),
                        0,
                        #[trigger] cell(out@, n as nat, a, b),
                    ),
            decreases m - i,
        {
            let mut p: usize = 0;
            while p < k
                invariant
                    i < m,
                    p <= k,
                    m == self@.shape[0],
                    k == self@.shape[1],
                    k == other@.shape[0],
                    n == other@.shape[1],
                    self@.data.len() == m * k,
                    other@.data.len() == k * n,
                    out@.len() == m * n,
                    forall|a: int, b: int|
                        0 <= a < i && 0 <= b < n ==> dot_gives(
                            self@.row(a),
                            other@.column(b),
                            k as nat,
                            #[trigger] cell(out@, n as nat, a, b),
                        ),
                    forall|b: int|
                        0 <= b < n ==> dot_gives(
                            self@.row(i as int),
                            other@.column(b),
                            p as nat,
                            #[trigger] cell(out@, n as nat, i as int, b),
                        ),
                    forall|a: int, b: int|
                        i < a < m && 0 <= b < n ==> dot_gives(
                            self@.row(a),
                            other@.column(b),
                            0,
                            #[trigger] cell(out@, n as nat, a, b),
                        ),
                decreases k - p,
            {
                let ghost xs = self@.row(i as int);
                proof {
                    assert(self.data@.len() == self.data.len());
                    lemma_cell_inside(m as nat, k as nat, i as int, p as int);
                }
                let x: S = self.data[i * k + p];
                assert(x == xs[p as int]);
                let ghost before = out@;
                if x.is_zero() {
                    proof {
                        assert forall|b: int| 0 <= b < n implies dot_gives(
                            xs,
                            other@.column(b),
                            (p + 1) as nat,
                            #[trigger] cell(out@, n as nat, i as int, b),
                        ) by {
                            let s = cell(out@, n as nat, i as int, b);
                            assert(dot_gives(xs, other@.column(b), p as nat, s));
                            lemma_dot_extend(xs, other@.column(b), p as nat, s, s);
                        }
                    }
                } else {
                    let mut j: usize = 0;
                    while j < n
                        invariant
                            i < m,
                            p < k,
                            j <= n,
                            m == self@.shape[0],
                            k == self@.shape[1],
                            k == other@.shape[0],
                            n == other@.shape[1],
                            other@.data.len() == k * n,
                            out@.len() == m * n,
                            xs == self@.row(i as int),
                            xs.len() == k,
                            x == xs[p as int],
                            is_zero_gives(x, false),
                            forall|a: int, b: int|
                                0 <= a < m && 0 <= b < n && a != i ==> #[trigger] cell(
                                    out@,
                                    n as nat,
                                    a,
                                    b,
                                ) == cell(before, n as nat, a, b),
                            forall|b: int|
                                0 <= b < j ==> dot_gives(
                                    xs,
                                    other@.column(b),
                                    (p + 1) as nat,
                                    #[trigger] cell(out@, n as nat, i as int, b),
                                ),
                            forall|b: int|
                                j <= b < n ==> dot_gives(
                                    xs,
                                    other@.column(b),
                                    p as nat,
                                    #[trigger] cell(out@, n as nat, i as int, b),
                                ),
                        decreases n - j,
                    {
                        proof {
                            assert(out@.len() == out.len());
                            assert(other.data@.len() == other.data.len());
                            lemma_cell_inside(m as nat, n as nat, i as int, j as int);
                            lemma_cell_inside(k as nat, n as nat, p as int, j as int);
                        }
                        let y: S = other.data[p * n + j];
                        let term: S = x.times(y);
                        let s: S = out[i * n + j];
                        let v: S = s.plus(term);
                        proof {
                            let ys = other@.column(j as int);
                            assert(y == ys[p as int]);
                            assert(s == cell(out@, n as nat, i as int, j as int));
                            assert(times_gives(x, y, term));
                            assert(plus_gives(s, term, v));
                            lemma_dot_extend(xs, ys, p as nat, s, v);
                            lemma_set_cell(out@, m as nat, n as nat, i as int, j as int, v);
                        }
                        out[i * n + j] = v;
                        j = j + 1;
                    }
                }
                p = p + 1;
            }
            i = i + 1;
        }
        proof {
            lemma_fits_2(seq![m, n]);
            lemma_product_2(seq![m, n]);
        }
        let dims: [usize; 2] = [m, n];
        assert(dims@ =~= seq![m, n]);
        Tensor::from_vec(out, dims.as_slice())
    }

    /// The rows that an index names: row `e` of the result is row `index[e]`.
    pub fn gather_rows(&self, index: &[usize]) -> (t: Tensor<S>)
        requires
            self@.matrix(),
            forall|e: int| 0 <= e < index@.len() ==> index@[e] < self@.shape[0],
            index@.len() * self@.shape[1] <= usize::MAX,
        ensures
            gathered(self@, index@, t@),
    {
        let feat: usize = self.shape[1];
        let ghost rows = self@.shape[0] as nat;
        proof {
            lemma_product_2(self@.shape);
            assert(0 * feat == 0) by (nonlinear_arith);
        }
        let mut data: Vec<S> = Vec::with_capacity(index.len() * feat);
        let mut e: usize = 0;
        while e < index.len()
            invariant
                e <= index@.len(),
                feat == self@.shape[1],
                rows == self@.shape[0],
                self@.data.len() == rows * feat,
                forall|a: int| 0 <= a < index@.len() ==> index@[a] < rows,
                data@.len() == e * feat,
                forall|a: int, b: int|
                    0 <= a < e && 0 <= b < feat ==> #[trigger] cell(data@, feat as nat, a, b)
                        == self@.at(index@[a] as int, b),
            decreases index@.len() - e,
        {
            let i: usize = index[e];
            let mut f: usize = 0;
            while f < feat
                invariant
                    e < index@.len(),
                    f <= feat,
                    i == index@[e as int],
                    i < rows,
                    feat == self@.shape[1],
                    rows == self@.shape[0],
                    self@.data.len() == rows * feat,
                    data@.len() == e * feat + f,
                    forall|a: int, b: int|
                        0 <= b < feat && (0 <= a < e || a == e && b < f) ==> #[trigger] cell(
                            data@,
                            feat as nat,
                            a,
                            b,
                        ) == self@.at(index@[a] as int, b),
                decreases feat - f,
            {
                proof {
                    assert(self.data@.len() == self.data.len());
                    lemma_cell_inside(rows, feat as nat, i as int, f as int);
                }
                let v: S = self.data[i * feat + f];
                proof {
                    lemma_push_cell(data@, feat as nat, e as int, f as int, v);
                }
                data.push(v);
                f = f + 1;
            }
            assert((e + 1) * feat == e * feat + feat) by (nonlinear_arith);
            e = e + 1;
        }
        proof {
            lemma_fits_2(seq![e, feat]);
            lemma_product_2(seq![e, feat]);
        }
        let dims: [usize; 2] = [e, feat];
        assert(dims@ =~= seq![e, feat]);
        Tensor::from_vec(data, dims.as_slice())
    }

    /// The sums of the rows that go to each node: row `e` goes to node
    /// `index[e]`.
    pub fn scatter_add_rows(&self, index: &[usize], num_nodes: usize) -> (t: Tensor<S>)
        requires
            self@.matrix(),
            index@.len() == self@.shape[0],
            forall|e: int| 0 <= e < index@.len() ==> index@[e] < num_nodes,
            num_nodes * self@.shape[1] <= usize::MAX,
        ensures
            scatter_gives(self@, index@, num_nodes as nat, t@),
    {
        let feat: usize = self.shape[1];
        proof {
            lemma_product_2(self@.shape);
        }
        let zero: S = S::zero();
        let mut out: Vec<S> = filled(num_nodes * feat, zero);
        proof {
            assert forall|a: int, b: int| 0 <= a < num_nodes && 0 <= b < feat implies sum_gives(
                inbox(self@, index@, a, b, 0),
                #[trigger] cell(out@, feat as nat, a, b),
            ) by {
                lemma_cell_inside(num_nodes as nat, feat as nat, a, b);
            }
        }
        let mut e: usize = 0;
        while e < index.len()
            invariant
                e <= index@.len(),
                feat == self@.shape[1],
                index@.len() == self@.shape[0],
                self@.data.len() == index@.len() * feat,
                forall|a: int| 0 <= a < index@.len() ==> index@[a] < num_nodes,
                out@.len() == num_nodes * feat,
                forall|a: int, b: int|
                    0 <= a < num_nodes && 0 <= b < feat ==> sum_gives(
                        inbox(self@, index@, a, b, e as nat),
                        #[trigger] cell(out@, feat as nat, a, b),
                    ),
            decreases index@.len() - e,
        {
            let dst: usize = index[e];
            let mut f: usize = 0;
            while f < feat
                invariant
                    e < index@.len(),
                    f <= feat,
                    dst == index@[e as int],
                    dst < num_nodes,
                    feat == self@.shape[1],
                    index@.len() == self@.shape[0],
                    self@.data.len() == index@.len() * feat,
                    out@.len() == num_nodes * feat,
                    forall|a: int, b: int|
                        0 <= a < num_nodes && 0 <= b < feat ==> sum_gives(
                            inbox(
                                self@,
                                index@,
                                a,
                                b,
                                if a == dst && b < f {
                                    (e + 1) as nat
                                } else {
                                    e as nat
                                },
                            ),
                            #[trigger] cell(out@, feat as nat, a, b),
                        ),
                decreases feat - f,
            {
                proof {
                    assert(self.data@.len() == self.data.len());
                    assert(out@.len() == out.len());
                    lemma_cell_inside(num_nodes as nat, feat as nat, dst as int, f as int);
                    lemma_cell_inside(index@.len(), feat as nat, e as int, f as int);
                }
                let x: S = self.data[e * feat + f];
                let s: S = out[dst * feat + f];
                let v: S = s.plus(x);
                proof {
                    let seen = inbox(self@, index@, dst as int, f as int, e as nat);
                    assert(s == cell(out@, feat as nat, dst as int, f as int));
                    assert(x == self@.at(e as int, f as int));
                    assert(seen.push(x).drop_last() =~= seen);
                    assert(plus_gives(s, seen.push(x).last(), v));
                    assert(inbox(self@, index@, dst as int, f as int, (e + 1) as nat) == seen.push(
                        x,
                    ));
                    lemma_set_cell(out@, num_nodes as nat, feat as nat, dst as int, f as int, v);
                }
                out[dst * feat + f] = v;
                f = f + 1;
            }
            proof {
                assert forall|a: int, b: int|
                    0 <= a < num_nodes && 0 <= b < feat implies sum_gives(
                    inbox(self@, index@, a, b, (e + 1) as nat),
                    #[trigger] cell(out@, feat as nat, a, b),
                ) by {
                    if a != dst {
                        assert(inbox(self@, index@, a, b, (e + 1) as nat) == inbox(
                            self@,
                            index@,
                            a,
                            b,
                            e as nat,
                        ));
                    }
                }
            }
            e = e + 1;
        }
        proof {
            lemma_fits_2(seq![num_nodes, feat]);
            lemma_product_2(seq![num_nodes, feat]);
        }
        let dims: [usize; 2] = [num_nodes, feat];
        assert(dims@ =~= seq![num_nodes, feat]);
        Tensor::from_vec(out, dims.as_slice())
    }

    /// The Euclidean norm of `self - other`: the signal by which an iteration
    /// halts.
    pub fn l2_diff(&self, other: &Tensor<S>) -> (r: S)
        requires
            self@.dense(),
            other@.dense(),
            self@.shape == other@.shape,
        ensures
            distance_gives(self@.data, other@.data, r),
    {
        let n: usize = self.data.len();
        let mut sq: Vec<S> = Vec::with_capacity(n);
        let mut i: usize = 0;
        while i < n
            invariant
                i <= n,
                n == self@.data.len(),
                n == other@.data.len(),
                sq@.len() == i,
                forall|p: int|
                    0 <= p < i ==> square_diff_gives(
                        self@.data[p],
                        other@.data[p],
                        #[trigger] sq@[p],
                    ),
            decreases n - i,
        {
            let d: S = self.data[i].minus(other.data[i]);
            let v: S = d.times(d);
            assert(times_gives(d, d, v));
            sq.push(v);
            i = i + 1;
        }
        let total: S = sum(sq.as_slice());
        let r: S = total.sqrt();
        assert(distance_via(self@.data, other@.data, sq@, total, r));
        r
    }
}

} // verus!
