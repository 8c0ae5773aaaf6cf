//! Inference-first layers: the forward pass is the product.
use vstd::pervasive::unreached;
use vstd::prelude::*;

use crate::grid::{lemma_cell_inside, row};
use crate::random::normals_give;
use crate::scalar::{from_u64_gives, order_gives, over_gives, sqrt_gives, times_gives, zero_gives};
use crate::scalar::{Order, Scalar};
use crate::shape::{copied, same_shape};
use crate::shape::{lemma_fits_1, lemma_fits_2, lemma_product_1, lemma_product_2, product};
use crate::tensor::{add_gives, addable, matmul_gives, relu_gives};
use crate::tensor::{Tensor, TensorView};

verus! {

/// How far apart the seeds of neighbouring layers lie.
pub const SEED_STRIDE: u64 = 7919;

/// An affine layer: `weight` is `[in_features, out_features]` and `bias` is
/// `[out_features]`.
pub struct Linear<S> {
    pub weight: Tensor<S>,
    pub bias: Tensor<S>,
}

/// The value of a [`Linear`].
pub struct LinearView<S> {
    pub weight: TensorView<S>,
    pub bias: TensorView<S>,
}

impl<S> View for Linear<S> {
    type V = LinearView<S>;

    open spec fn view(&self) -> LinearView<S> {
        LinearView { weight: self.weight@, bias: self.bias@ }
    }
}

impl<S> LinearView<S> {
    /// The layer can take a batch of this shape: the shapes of batch, weight
    /// and bias match and the result is addressable.
    pub open spec fn accepts(self, shape: Seq<usize>) -> bool {
        &&& self.weight.matrix()
        &&& self.bias.dense()
        &&& shape.len() == 2
        &&& shape[1] == self.weight.shape[0]
        &&& shape[0] * self.weight.shape[1] <= usize::MAX
        &&& addable(seq![shape[0], self.weight.shape[1]], self.bias.shape)
    }
}

/// `r` is `x` times the weight plus the bias.
pub open spec fn linear_gives<S: Scalar>(
    layer: LinearView<S>,
    x: TensorView<S>,
    r: TensorView<S>,
) -> bool {
    exists|xw: TensorView<S>| #[trigger]
        matmul_gives(x, layer.weight, xw) && add_gives(xw, layer.bias, r)
}

/// `r` is the root of two over the number of inputs.
pub open spec fn he_scale_gives<S: Scalar>(in_features: usize, r: S) -> bool {
    exists|two: S, n: S, q: S|
        {
            &&& from_u64_gives(2, two)
            &&& from_u64_gives(in_features as u64, n)
            &&& #[trigger] over_gives(two, n, q)
            &&& #[trigger] sqrt_gives(q, r)
        }
}

/// `data` holds the normal numbers of a seed, each times `scale`.
pub open spec fn scaled_normals_give<S: Scalar>(
    seed: u64,
    scale: S,
    raw: Seq<S>,
    data: Seq<S>,
) -> bool {
    &&& normals_give(seed, raw)
    &&& raw.len() == data.len()
    &&& forall|i: int| 0 <= i < data.len() ==> times_gives(raw[i], scale, #[trigger] data[i])
}

/// `layer` is fresh: scaled normal weights and a zero bias.
pub open spec fn fresh_linear_gives<S: Scalar>(
    in_features: usize,
    out_features: usize,
    seed: u64,
    layer: LinearView<S>,
) -> bool {
    &&& layer.weight.wf()
    &&& layer.weight.shape == seq![in_features, out_features]
    &&& exists|scale: S, raw: Seq<S>|
        he_scale_gives(in_features, scale) && #[trigger] scaled_normals_give(
            seed,
            scale,
            raw,
            layer.weight.data,
        )
    &&& layer.bias.wf()
    &&& layer.bias.shape == seq![out_features]
    &&& forall|i: int|
        0 <= i < layer.bias.data.len() ==> zero_gives(#[trigger] layer.bias.data[i])
}

impl<S: Scalar> Linear<S> {
    /// A layer with random weights, scaled so that deep stacks stay stable.
    pub fn new(in_features: usize, out_features: usize, seed: u64) -> (layer: Self)
        requires
            in_features * out_features < usize::MAX,
        ensures
            fresh_linear_gives(in_features, out_features, seed, layer@),
    {
        let two: S = S::from_u64(2);
        let count: S = S::from_u64(in_features as u64);
        let ratio: S = two.over(count);
        let scale: S = ratio.sqrt();
        assert(over_gives(two, count, ratio) && sqrt_gives(ratio, scale));
        let dims: [usize; 2] = [in_features, out_features];
        proof {
            assert(dims@ =~= seq![in_features, out_features]);
            lemma_fits_2(dims@);
            lemma_product_2(dims@);
        }
        let mut w: Tensor<S> = Tensor::randn(dims.as_slice(), seed);
        let ghost raw = w@.data;
        let mut i: usize = 0;
        while i < w.data.len()
            invariant
                i <= w@.data.len(),
                w@.shape == dims@,
                w@.wf(),
                w@.data.len() == raw.len(),
                forall|p: int|
                    0 <= p < i ==> times_gives(raw[p], scale, #[trigger] w@.data[p]),
                forall|p: int| i <= p < raw.len() ==> #[trigger] w@.data[p] == raw[p],
            decreases raw.len() - i,
        {
            let v: S = w.data[i].times(scale);
            w.data[i] = v;
            i = i + 1;
        }
        assert(scaled_normals_give(seed, scale, raw, w@.data));
        let outs: [usize; 1] = [out_features];
        proof {
            assert(outs@ =~= seq![out_features]);
            lemma_fits_1(outs@);
        }
        let bias: Tensor<S> = Tensor::zeros(outs.as_slice());
        let layer = Linear { weight: w, bias };
        assert(layer@.weight.data == w@.data);
        layer
    }

    /// A layer with given weights, the weight as `[in, out]`.
    pub fn from_weights(weight: Tensor<S>, bias: Tensor<S>) -> (layer: Self)
        requires
            weight@.shape.len() == 2,
            bias@.shape.len() >= 1,
            bias@.shape[0] == weight@.shape[1],
        ensures
            layer.weight == weight,
            layer.bias == bias,
    {
        Linear { weight, bias }
    }

    /// Whether the layer can take a batch of this shape.
    pub fn accepts_shape(&self, shape: &[usize]) -> (b: bool)
        ensures
            b == self@.accepts(shape@),
    {
        if self.weight.shape.len() != 2 || shape.len() != 2 || !self.weight.is_dense()
            || !self.bias.is_dense() || shape[1] != self.weight.shape[0] {
            return false;
        }
        let batch: usize = shape[0];
        let outs: usize = self.weight.shape[1];
        if batch.checked_mul(outs).is_none() {
            return false;
        }
        let dims: [usize; 2] = [batch, outs];
        assert(dims@ =~= seq![batch, outs]);
        same_shape(dims.as_slice(), self.bias.shape.as_slice()) || (self.bias.shape.len() == 1
            && self.bias.shape[0] == outs)
    }

    /// The batch times the weight plus the bias.
    pub fn forward(&self, x: &Tensor<S>) -> (y: Tensor<S>)
        requires
            x@.dense(),
            self@.accepts(x@.shape),
        ensures
            linear_gives(self@, x@, y@),
            y@.wf(),
            y@.shape == seq![x@.shape[0], self@.weight.shape[1]],
    {
        let xw: Tensor<S> = x.matmul(&self.weight);
        xw.add(&self.bias)
    }
}

/// A stack of layers with a ReLU between each two of them.
pub struct Mlp<S> {
    pub layers: Vec<Linear<S>>,
}

impl<S> View for Mlp<S> {
    type V = Seq<LinearView<S>>;

    open spec fn view(&self) -> Seq<LinearView<S>> {
        self.layers@.map_values(|layer: Linear<S>| layer@)
    }
}

/// The weights of the layer from dimension `i` to the next are addressable.
pub open spec fn layer_fits(dims: Seq<usize>, i: int) -> bool {
    dims[i] * dims[i + 1] < usize::MAX
}

/// The shape of a batch after the first `n` layers.
pub open spec fn flow<S>(layers: Seq<LinearView<S>>, shape: Seq<usize>, n: nat) -> Seq<usize> {
    if n == 0 {
        shape
    } else {
        seq![shape[0], layers[n - 1].weight.shape[1]]
    }
}

/// Layer `i` can take what comes to it from a batch of this shape.
pub open spec fn accepts_at<S>(layers: Seq<LinearView<S>>, shape: Seq<usize>, i: int) -> bool {
    layers[i].accepts(flow(layers, shape, i as nat))
}

/// A batch of this shape can pass through all the layers.
pub open spec fn accepts_all<S>(layers: Seq<LinearView<S>>, shape: Seq<usize>) -> bool {
    accepts_first(layers, shape, layers.len())
}

/// A batch of this shape can pass through the first `n` layers.
pub open spec fn accepts_first<S>(
    layers: Seq<LinearView<S>>,
    shape: Seq<usize>,
    n: nat,
) -> bool {
    forall|i: int| 0 <= i < n ==> #[trigger] accepts_at(layers, shape, i)
}

/// One more layer takes the batch.
proof fn lemma_flow_step<S>(layers: Seq<LinearView<S>>, shape: Seq<usize>, n: nat)
    requires
        n < layers.len(),
        accepts_first(layers, shape, n),
        accepts_at(layers, shape, n as int),
    ensures
        accepts_first(layers, shape, n + 1),
        flow(layers, shape, n + 1) == seq![
            flow(layers, shape, n)[0],
            layers[n as int].weight.shape[1],
        ],
{
    assert(flow(layers, shape, n)[0] == shape[0]);
}

/// A layer that cannot take the batch stops it.
proof fn lemma_flow_stops<S>(layers: Seq<LinearView<S>>, shape: Seq<usize>, n: nat)
    requires
        n < layers.len(),
        !accepts_at(layers, shape, n as int),
    ensures
        !accepts_all(layers, shape),
{
}

/// What a layer is handed where all layers take the batch.
proof fn lemma_flow_accepted<S>(layers: Seq<LinearView<S>>, shape: Seq<usize>, n: nat)
    requires
        n < layers.len(),
        accepts_all(layers, shape),
    ensures
        accepts_at(layers, shape, n as int),
        flow(layers, shape, n + 1) == seq![
            flow(layers, shape, n)[0],
            layers[n as int].weight.shape[1],
        ],
{
    assert(accepts_at(layers, shape, n as int));
    assert(flow(layers, shape, n)[0] == shape[0]);
}

/// `r` comes from `h` by layer `i`, with a ReLU after it unless it is the last.
pub open spec fn layer_gives<S: Scalar>(
    layers: Seq<LinearView<S>>,
    i: int,
    h: TensorView<S>,
    r: TensorView<S>,
) -> bool {
    if i == layers.len() - 1 {
        linear_gives(layers[i], h, r)
    } else {
        exists|y: TensorView<S>| #[trigger] linear_gives(layers[i], h, y) && relu_gives(y, r)
    }
}

/// `r` comes from `x` by the first `n` layers.
pub open spec fn layers_give<S: Scalar>(
    layers: Seq<LinearView<S>>,
    x: TensorView<S>,
    n: nat,
    r: TensorView<S>,
) -> bool
    decreases n,
{
    if n == 0 {
        r == x
    } else {
        exists|h: TensorView<S>|
            layers_give(layers, x, (n - 1) as nat, h) && #[trigger] layer_gives(
                layers,
                n - 1,
                h,
                r,
            )
    }
}

/// One more layer.
pub proof fn lemma_layers_extend<S: Scalar>(
    layers: Seq<LinearView<S>>,
    x: TensorView<S>,
    n: nat,
    h: TensorView<S>,
    r: TensorView<S>,
)
    requires
        layers_give(layers, x, n, h),
        layer_gives(layers, n as int, h, r),
    ensures
        layers_give(layers, x, n + 1, r),
{
    let k = n + 1;
    assert(layers_give(layers, x, (k - 1) as nat, h));
    assert(layer_gives(layers, k - 1, h, r));
}

/// `best` is the place of the greatest of the first `n` elements of `xs`,
/// compared from the left; the later of two equal ones wins.
pub open spec fn argmax_gives<S: Scalar>(xs: Seq<S>, n: nat, best: int) -> bool
    decreases n,
{
    if n == 0 {
        false
    } else if n == 1 {
        best == 0
    } else {
        exists|b: int, o: Order|
            {
                &&& argmax_gives(xs, (n - 1) as nat, b)
                &&& #[trigger] order_gives(xs[b], xs[n - 1], o)
                &&& o != Order::Unordered
                &&& best == (if o == Order::Greater {
                    b
                } else {
                    n - 1
                })
            }
    }
}

/// The search for the greatest element of `xs` can meet two elements without
/// an order.
pub open spec fn argmax_stuck<S: Scalar>(xs: Seq<S>) -> bool {
    exists|n: nat, b: int|
        {
            &&& 1 <= n < xs.len()
            &&& argmax_gives(xs, n, b)
            &&& #[trigger] order_gives(xs[b], xs[n as int], Order::Unordered)
        }
}

/// `preds` holds for each row of `t` the place of its greatest element.
pub open spec fn argmax_rows_gives<S: Scalar>(t: TensorView<S>, preds: Seq<usize>) -> bool {
    let cols = t.shape.last() as nat;
    &&& preds.len() == product(t.shape.drop_last())
    &&& forall|i: int|
        0 <= i < preds.len() ==> {
            &&& #[trigger] preds[i] < cols
            &&& argmax_gives(row(t.data, cols, i), cols, preds[i] as int)
        }
}

/// Some row of `t` has two elements without an order.
pub open spec fn argmax_rows_stuck<S: Scalar>(t: TensorView<S>) -> bool {
    exists|i: int|
        0 <= i < product(t.shape.drop_last()) && argmax_stuck(
            #[trigger] row(t.data, t.shape.last() as nat, i),
        )
}

/// The value of an optional list of classes.
pub open spec fn classes(preds: Option<Vec<usize>>) -> Option<Seq<usize>> {
    match preds {
        Some(p) => Some(p@),
        None => None,
    }
}

/// `preds` comes from the logits `y` of a batch: the classes of its samples,
/// or nothing where two logits of one sample have no order.
pub open spec fn predict_via<S: Scalar>(
    layers: Seq<LinearView<S>>,
    x: TensorView<S>,
    y: TensorView<S>,
    preds: Option<Seq<usize>>,
) -> bool {
    &&& layers_give(layers, x, layers.len(), y)
    &&& y.wf()
    &&& y.shape == seq![x.shape[0], layers.last().weight.shape[1]]
    &&& match preds {
        Some(p) => argmax_rows_gives(y, p),
        None => argmax_rows_stuck(y),
    }
}

/// `preds` are the predictions of a stack of layers for a batch.
pub open spec fn predict_gives<S: Scalar>(
    layers: Seq<LinearView<S>>,
    x: TensorView<S>,
    preds: Option<Seq<usize>>,
) -> bool {
    exists|y: TensorView<S>| #[trigger] predict_via(layers, x, y, preds)
}

/// Predictions from the logits of a batch: one for each sample, among the
/// outputs of the last layer.
proof fn lemma_classes_of_logits<S: Scalar>(
    layers: Seq<LinearView<S>>,
    x: TensorView<S>,
    y: TensorView<S>,
    preds: Option<Seq<usize>>,
)
    requires
        layers_give(layers, x, layers.len(), y),
        y.wf(),
        y.shape == seq![x.shape[0], layers.last().weight.shape[1]],
        preds matches Some(p) ==> argmax_rows_gives(y, p),
        preds is None ==> argmax_rows_stuck(y),
    ensures
        predict_gives(layers, x, preds),
        preds matches Some(p) ==> p.len() == x.shape[0] && forall|i: int|
            0 <= i < p.len() ==> #[trigger] p[i] < layers.last().weight.shape[1],
{
    assert(y.shape.drop_last() =~= seq![x.shape[0]]);
    lemma_product_1(y.shape.drop_last());
    assert(predict_via(layers, x, y, preds));
}

/// Whatever logits a stack of layers gives for a batch, those of one sample
/// have an order.
pub open spec fn logits_are_ordered<S: Scalar>(
    layers: Seq<LinearView<S>>,
    x: TensorView<S>,
) -> bool {
    forall|y: TensorView<S>| #[trigger]
        layers_give(layers, x, layers.len(), y) ==> !argmax_rows_stuck(y)
}

/// The place of the greatest element of the row that starts at `from`, or
/// `None` where two of its elements have no order.
fn argmax_row<S: Scalar>(data: &[S], from: usize, cols: usize) -> (best: Option<usize>)
    requires
        0 < cols,
        from + cols <= data@.len(),
    ensures
        match best {
            Some(b) => b < cols && argmax_gives(
                data@.subrange(from as int, from + cols),
                cols as nat,
                b as int,
            ),
            None => argmax_stuck(data@.subrange(from as int, from + cols)),
        },
{
    let ghost xs = data@.subrange(from as int, from + cols);
    let mut best: usize = 0;
    let mut c: usize = 1;
    while c < cols
        invariant
            1 <= c <= cols,
            from + cols <= data@.len(),
            xs == data@.subrange(from as int, from + cols),
            best < c,
            argmax_gives(xs, c as nat, best as int),
        decreases cols - c,
    {
        assert(data@.len() == data.len());
        let o: Order = data[from + best].order(data[from + c]);
        proof {
            let n = (c + 1) as nat;
            assert(order_gives(xs[best as int], xs[n - 1], o));
            assert(order_gives(xs[best as int], xs[c as int], o));
            assert((n - 1) as nat == c as nat);
        }
        match o {
            Order::Unordered => {
                return None;
            },
            Order::Greater => {},
            _ => {
                best = c;
            },
        }
        c = c + 1;
    }
    Some(best)
}

/// The place of the greatest element along the last dimension, for each run
/// of elements there; `None` where two elements of one run have no order.
pub fn argmax_rows<S: Scalar>(t: &Tensor<S>) -> (preds: Option<Vec<usize>>)
    requires
        t@.dense(),
        t@.shape.len() > 0,
        t@.shape.last() > 0,
    ensures
        match preds {
            Some(p) => argmax_rows_gives(t@, p@),
            None => argmax_rows_stuck(t@),
        },
{
    let cols: usize = t.shape[t.shape.len() - 1];
    let n: usize = t.data.len();
    let rows: usize = n / cols;
    let ghost front = product(t@.shape.drop_last());
    proof {
        assert(n == front * cols);
        assert(rows == front) by {
            vstd::arithmetic::div_mod::lemma_div_multiples_vanish(front as int, cols as int);
            vstd::arithmetic::mul::lemma_mul_is_commutative(front as int, cols as int);
        }
    }
    let mut preds: Vec<usize> = Vec::with_capacity(rows);
    let mut r: usize = 0;
    while r < rows
        invariant
            r <= rows,
            0 < cols,
            n == rows * cols,
            n == t@.data.len(),
            rows == front,
            front == product(t@.shape.drop_last()),
            cols == t@.shape.last(),
            preds@.len() == r,
            forall|i: int|
                0 <= i < r ==> {
                    &&& #[trigger] preds@[i] < cols
                    &&& argmax_gives(row(t@.data, cols as nat, i), cols as nat, preds@[i] as int)
                },
        decreases rows - r,
    {
        proof {
            lemma_cell_inside(rows as nat, cols as nat, r as int, 0);
            assert((r + 1) * cols == r * cols + cols) by (nonlinear_arith);
        }
        let from: usize = r * cols;
        assert(t@.data.subrange(from as int, from + cols) =~= row(t@.data, cols as nat, r as int));
        match argmax_row(t.data.as_slice(), from, cols) {
            Some(b) => {
                preds.push(b);
            },
            None => {
                assert(argmax_stuck(row(t@.data, t@.shape.last() as nat, r as int)));
                return None;
            },
        }
        r = r + 1;
    }
    Some(preds)
}

impl<S: Scalar> Mlp<S> {
    /// Fresh layers from each dimension to the next.
    pub fn new(dims: &[usize], seed: u64) -> (mlp: Self)
        requires
            dims@.len() >= 2,
            forall|i: int| 0 <= i < dims@.len() - 1 ==> #[trigger] layer_fits(dims@, i),
            seed + (dims@.len() - 2) * SEED_STRIDE <= u64::MAX,
        ensures
            mlp@.len() == dims@.len() - 1,
            forall|i: int|
                0 <= i < mlp@.len() ==> fresh_linear_gives(
                    dims@[i],
                    dims@[i + 1],
                    (seed + i * SEED_STRIDE) as u64,
                    #[trigger] mlp@[i],
                ),
    {
        let mut layers: Vec<Linear<S>> = Vec::new();
        let mut i: usize = 0;
        while i < dims.len() - 1
            invariant
                i <= dims@.len() - 1,
                dims@.len() >= 2,
                forall|p: int| 0 <= p < dims@.len() - 1 ==> #[trigger] layer_fits(dims@, p),
                seed + (dims@.len() - 2) * SEED_STRIDE <= u64::MAX,
                layers@.len() == i,
                forall|p: int|
                    0 <= p < i ==> fresh_linear_gives(
                        dims@[p],
                        dims@[p + 1],
                        (seed + p * SEED_STRIDE) as u64,
                        #[trigger] layers@[p]@,
                    ),
            decreases dims@.len() - i,
        {
            assert(layer_fits(dims@, i as int));
            let layer_seed: u64 = seed + i as u64 * SEED_STRIDE;
            layers.push(Linear::new(dims[i], dims[i + 1], layer_seed));
            i = i + 1;
        }
        let mlp = Mlp { layers };
        proof {
            assert forall|p: int| 0 <= p < mlp@.len() implies fresh_linear_gives(
                dims@[p],
                dims@[p + 1],
                (seed + p * SEED_STRIDE) as u64,
                #[trigger] mlp@[p],
            ) by {
                assert(mlp@[p] == layers@[p]@);
            }
        }
        mlp
    }

    /// The batch after layer `i`.
    fn apply(&self, i: usize, h: &Tensor<S>) -> (r: Tensor<S>)
        requires
            i < self@.len(),
            h@.dense(),
            self@[i as int].accepts(h@.shape),
        ensures
            layer_gives(self@, i as int, h@, r@),
            r@.wf(),
            r@.shape == seq![h@.shape[0], self@[i as int].weight.shape[1]],
    {
        assert(self@[i as int] == self.layers@[i as int]@);
        let y: Tensor<S> = self.layers[i].forward(h);
        if i != self.layers.len() - 1 {
            let r: Tensor<S> = y.relu();
            assert(linear_gives(self@[i as int], h@, y@) && relu_gives(y@, r@));
            r
        } else {
            y
        }
    }

    /// The shape of a batch after layer `i`, or `None` where the layer cannot
    /// take it.
    fn shape_after(&self, i: usize, shape: &[usize]) -> (next: Option<Vec<usize>>)
        requires
            i < self@.len(),
        ensures
            match next {
                Some(s) => self@[i as int].accepts(shape@) && s@ == seq![
                    shape@[0],
                    self@[i as int].weight.shape[1],
                ],
                None => !self@[i as int].accepts(shape@),
            },
    {
        assert(self@[i as int] == self.layers@[i as int]@);
        if self.layers[i].accepts_shape(shape) {
            let next: Vec<usize> = vec![shape[0], self.layers[i].weight.shape[1]];
            assert(next@ =~= seq![shape@[0], self@[i as int].weight.shape[1]]);
            Some(next)
        } else {
            None
        }
    }

    /// Whether a batch can pass through all the layers.
    pub fn accepts_batch(&self, x: &Tensor<S>) -> (b: bool)
        ensures
            b == (self@.len() > 0 && x@.dense() && accepts_all(self@, x@.shape)),
    {
        if self.layers.len() == 0 || !x.is_dense() {
            return false;
        }
        let mut shape: Vec<usize> = copied(x.shape.as_slice());
        let mut i: usize = 0;
        while i < self.layers.len()
            invariant
                i <= self@.len(),
                self@.len() == self.layers@.len(),
                shape@ == flow(self@, x@.shape, i as nat),
                accepts_first(self@, x@.shape, i as nat),
            decreases self@.len() - i,
        {
            match self.shape_after(i, shape.as_slice()) {
                Some(next) => {
                    proof {
                        lemma_flow_step(self@, x@.shape, i as nat);
                    }
                    shape = next;
                },
                None => {
                    proof {
                        lemma_flow_stops(self@, x@.shape, i as nat);
                    }
                    return false;
                },
            }
            i = i + 1;
        }
        true
    }

    /// The logits of a batch. Softmax is the caller's choice.
    pub fn forward(&self, x: &Tensor<S>) -> (y: Tensor<S>)
        requires
            self@.len() > 0,
            x@.dense(),
            accepts_all(self@, x@.shape),
        ensures
            layers_give(self@, x@, self@.len(), y@),
            y@.wf(),
            y@.shape == seq![x@.shape[0], self@.last().weight.shape[1]],
    {
        let mut h: Tensor<S> = x.clone();
        let mut i: usize = 0;
        while i < self.layers.len()
            invariant
                i <= self@.len(),
                self@.len() == self.layers@.len(),
                accepts_all(self@, x@.shape),
                h@.dense(),
                i > 0 ==> h@.wf(),
                h@.shape == flow(self@, x@.shape, i as nat),
                layers_give(self@, x@, i as nat, h@),
            decreases self@.len() - i,
        {
            let ghost before = h@;
            proof {
                lemma_flow_accepted(self@, x@.shape, i as nat);
            }
            h = self.apply(i, &h);
            proof {
                lemma_layers_extend(self@, x@, i as nat, before, h@);
            }
            i = i + 1;
        }
        h
    }

    /// The class of each sample in a batch: the place of its greatest logit.
    pub fn predict(&self, x: &Tensor<S>) -> (preds: Vec<usize>)
        requires
            self@.len() > 0,
            x@.dense(),
            accepts_all(self@, x@.shape),
            self@.last().weight.shape[1] > 0,
            logits_are_ordered(self@, x@),
        ensures
            predict_gives(self@, x@, Some(preds@)),
            preds@.len() == x@.shape[0],
            forall|i: int|
                0 <= i < preds@.len() ==> #[trigger] preds@[i] < self@.last().weight.shape[1],
    {
        match self.try_predict(x) {
            Some(preds) => preds,
            None => {
                proof {
                    let y = choose|y: TensorView<S>| #[trigger] predict_via(self@, x@, y, None);
                    assert(layers_give(self@, x@, self@.len(), y));
                }
                unreached()
            },
        }
    }

    /// The class of each sample in a batch, or `None` where two logits of one
    /// sample have no order.
    pub fn try_predict(&self, x: &Tensor<S>) -> (preds: Option<Vec<usize>>)
        requires
            self@.len() > 0,
            x@.dense(),
            accepts_all(self@, x@.shape),
            self@.last().weight.shape[1] > 0,
        ensures
            predict_gives(self@, x@, classes(preds)),
            preds matches Some(p) ==> p@.len() == x@.shape[0] && forall|i: int|
                0 <= i < p@.len() ==> #[trigger] p@[i] < self@.last().weight.shape[1],
    {
        let logits: Tensor<S> = self.forward(x);
        let preds: Option<Vec<usize>> = argmax_rows(&logits);
        proof {
            lemma_classes_of_logits(self@, x@, logits@, classes(preds));
        }
        preds
    }
}

} // verus!
