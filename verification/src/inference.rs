//! What draws, fresh layers, networks, predictions, message passing and
//! comparisons come to, element by element.
use vstd::prelude::*;

use crate::agreement::{indices_give, matches_among, matches_in, max_diff_gives, report_gives};
use crate::agreement::{full_agreement, report_via, wider_gives, Report};
use crate::graph::{
    blend_elem_gives, blend_gives, complement_gives, edges_fit, halted, leads_to, not_below,
    round_gives, run_gives,
};
use crate::grid::{lemma_cell_inside, lemma_place_cell, row};
use crate::meaning::{exact, follows, gather_copies_rows, scatter_adds_rows, Numbers};
use crate::nn::{
    argmax_gives, argmax_rows_gives, argmax_rows_stuck, argmax_stuck, fresh_linear_gives,
    he_scale_gives, layers_give, linear_gives, predict_gives, predict_via, scaled_normals_give,
};
use crate::nn::LinearView;
use crate::random::{
    angle_gives, normal_pair_gives, normals_give, polar_gives, radius_gives, state_after,
    uniform_gives,
};
use crate::reduce::distance_gives;
use crate::scalar::{abs_gives, maximum_gives, minus_gives, order_gives, times_gives, zero_gives};
use crate::scalar::{Order, Scalar};
use crate::shape::{lemma_product_1, lemma_product_2, product, row_major};
use crate::structure::{first_layer_comes_off, hidden_gives};
use crate::tensor::{gathered, relu_gives, scatter_gives, TensorView};

verus! {

// ---------- draws ----------

/// The states of the generator: the seed, or 1 in place of 0, and then each
/// from the one before by three shifts.
pub proof fn states_follow_by_shifts(seed: u64, n: nat)
    ensures
        state_after(seed, 0) == if seed == 0 {
            1u64
        } else {
            seed
        },
        ({
            let s = state_after(seed, n);
            let a = s ^ (s << 13);
            let b = a ^ (a >> 7);
            state_after(seed, n + 1) == b ^ (b << 17)
        }),
{
    let k = n + 1;
    assert((k - 1) as nat == n);
}

proof fn lemma_pair<S: Scalar>(m: Numbers<S>, first: u64, second: u64, x: S, y: S)
    requires
        follows(m),
        normal_pair_gives(first, second, x, y),
    ensures
        ({
            let u = (m.div)((m.num)((first >> 11) % 0x20_0000), (m.num)(0x20_0000));
            let v = (m.div)((m.num)((second >> 11) % 0x20_0000), (m.num)(0x20_0000));
            let least = (m.bits)(0x2B8C_BCCC);
            let radius = (m.sqrt)((m.mul)((m.neg)((m.num)(2)), (m.ln)((m.max)(u, least))));
            let angle = (m.mul)((m.mul)((m.num)(2), m.pi), v);
            &&& (m.val)(x) == (m.mul)(radius, (m.cos)(angle))
            &&& (m.val)(y) == (m.mul)(radius, (m.sin)(angle))
        }),
{
    let (u, v, r, a) = choose|u: S, v: S, r: S, a: S|
        {
            &&& uniform_gives(first, u)
            &&& uniform_gives(second, v)
            &&& #[trigger] radius_gives(u, r)
            &&& #[trigger] angle_gives(v, a)
            &&& polar_gives(r, a, x, y)
        };
    lemma_uniform(m, first, u);
    lemma_uniform(m, second, v);
    lemma_radius(m, u, r);
    lemma_angle(m, v, a);
    lemma_polar(m, r, a, x, y);
}

proof fn lemma_uniform<S: Scalar>(m: Numbers<S>, state: u64, u: S)
    requires
        follows(m),
        uniform_gives(state, u),
    ensures
        (m.val)(u) == (m.div)((m.num)((state >> 11) % 0x20_0000), (m.num)(0x20_0000)),
{
}

proof fn lemma_radius<S: Scalar>(m: Numbers<S>, u: S, r: S)
    requires
        follows(m),
        radius_gives(u, r),
    ensures
        (m.val)(r) == (m.sqrt)(
            (m.mul)((m.neg)((m.num)(2)), (m.ln)((m.max)((m.val)(u), (m.bits)(0x2B8C_BCCC)))),
        ),
{
}

proof fn lemma_angle<S: Scalar>(m: Numbers<S>, v: S, a: S)
    requires
        follows(m),
        angle_gives(v, a),
    ensures
        (m.val)(a) == (m.mul)((m.mul)((m.num)(2), m.pi), (m.val)(v)),
{
}

proof fn lemma_polar<S: Scalar>(m: Numbers<S>, r: S, a: S, x: S, y: S)
    requires
        follows(m),
        polar_gives(r, a, x, y),
    ensures
        (m.val)(x) == (m.mul)((m.val)(r), (m.cos)((m.val)(a))),
        (m.val)(y) == (m.mul)((m.val)(r), (m.sin)((m.val)(a))),
{
}

/// Number `k` of a draw is a coordinate of the point whose radius and angle two
/// uniform numbers give, the cosine at even and the sine at odd places. The
/// uniform numbers of pair `p` are 21 bits each of the states `2 p + 1` and
/// `2 p + 2`.
pub proof fn draw_is_box_muller<S: Scalar>(m: Numbers<S>, seed: u64, data: Seq<S>, k: int)
    requires
        follows(m),
        normals_give(seed, data),
        0 <= k < data.len(),
    ensures
        ({
            let p = k / 2;
            let first = state_after(seed, (2 * p + 1) as nat);
            let second = state_after(seed, (2 * p + 2) as nat);
            let u = (m.div)((m.num)((first >> 11) % 0x20_0000), (m.num)(0x20_0000));
            let v = (m.div)((m.num)((second >> 11) % 0x20_0000), (m.num)(0x20_0000));
            let least = (m.bits)(0x2B8C_BCCC);
            let radius = (m.sqrt)((m.mul)((m.neg)((m.num)(2)), (m.ln)((m.max)(u, least))));
            let angle = (m.mul)((m.mul)((m.num)(2), m.pi), v);
            (m.val)(data[k]) == (m.mul)(
                radius,
                if k % 2 == 0 {
                    (m.cos)(angle)
                } else {
                    (m.sin)(angle)
                },
            )
        }),
{
    let p = k / 2;
    let first = state_after(seed, (2 * p + 1) as nat);
    let second = state_after(seed, (2 * p + 2) as nat);
    if 2 * p + 1 < data.len() {
        assert(normal_pair_gives(first, second, data[2 * p], data[2 * p + 1]));
        lemma_pair(m, first, second, data[2 * p], data[2 * p + 1]);
    } else {
        let n = data.len();
        let y = choose|y: S| #[trigger]
            normal_pair_gives(state_after(seed, n), state_after(seed, n + 1), data.last(), y);
        lemma_pair(m, first, second, data.last(), y);
    }
}

/// A fresh layer has for weights a draw of its seed, each number times the root
/// of two over the number of inputs, and for biases zeros.
pub proof fn fresh_layer_is_scaled_draw<S: Scalar>(
    m: Numbers<S>,
    in_features: usize,
    out_features: usize,
    seed: u64,
    layer: LinearView<S>,
) -> (raw: Seq<S>)
    requires
        follows(m),
        fresh_linear_gives(in_features, out_features, seed, layer),
    ensures
        layer.weight.shape == seq![in_features, out_features],
        row_major(layer.weight.shape, layer.weight.strides),
        layer.weight.data.len() == in_features * out_features,
        normals_give(seed, raw),
        raw.len() == in_features * out_features,
        forall|k: int|
            0 <= k < raw.len() ==> (m.val)(#[trigger] layer.weight.data[k]) == (m.mul)(
                (m.val)(raw[k]),
                (m.sqrt)((m.div)((m.num)(2), (m.num)(in_features as u64))),
            ),
        layer.bias.shape == seq![out_features],
        row_major(layer.bias.shape, layer.bias.strides),
        layer.bias.data.len() == out_features,
        forall|k: int|
            0 <= k < out_features ==> (m.val)(#[trigger] layer.bias.data[k]) == m.zero,
{
    lemma_product_2(layer.weight.shape);
    lemma_product_1(layer.bias.shape);
    let (scale, raw) = choose|scale: S, raw: Seq<S>|
        he_scale_gives(in_features, scale) && #[trigger] scaled_normals_give(
            seed,
            scale,
            raw,
            layer.weight.data,
        );
    lemma_scale(m, in_features, scale);
    assert forall|k: int| 0 <= k < raw.len() implies (m.val)(#[trigger] layer.weight.data[k])
        == (m.mul)((m.val)(raw[k]), (m.val)(scale)) by {
        assert(times_gives(raw[k], scale, layer.weight.data[k]));
    }
    assert forall|k: int| 0 <= k < out_features implies (m.val)(#[trigger] layer.bias.data[k])
        == m.zero by {
        assert(zero_gives(layer.bias.data[k]));
    }
    raw
}

proof fn lemma_scale<S: Scalar>(m: Numbers<S>, in_features: usize, r: S)
    requires
        follows(m),
        he_scale_gives(in_features, r),
    ensures
        (m.val)(r) == (m.sqrt)((m.div)((m.num)(2), (m.num)(in_features as u64))),
{
}

// ---------- networks ----------

/// The logits of a network are those of its last layer on what the layers
/// before it give, with a ReLU after each of those: the first layer comes off
/// with its ReLU, and of the last layer nothing is left but the layer.
pub proof fn network_is_layers_in_turn<S: Scalar>(
    layers: Seq<LinearView<S>>,
    x: TensorView<S>,
    y: TensorView<S>,
)
    requires
        layers.len() > 0,
        layers_give(layers, x, layers.len(), y),
    ensures
        layers.len() == 1 ==> linear_gives(layers[0], x, y),
        layers.len() > 1 ==> exists|a: TensorView<S>, h: TensorView<S>|
            {
                &&& #[trigger] linear_gives(layers[0], x, a)
                &&& #[trigger] relu_gives(a, h)
                &&& layers_give(layers.skip(1), h, (layers.len() - 1) as nat, y)
            },
{
    first_layer_comes_off(layers, x, y);
    if layers.len() > 1 {
        let h = choose|h: TensorView<S>| #[trigger]
            hidden_gives(layers[0], x, h) && layers_give(
                layers.skip(1),
                h,
                layers.skip(1).len(),
                y,
            );
        let a = choose|a: TensorView<S>| #[trigger]
            linear_gives(layers[0], x, a) && relu_gives(a, h);
        assert(linear_gives(layers[0], x, a) && relu_gives(a, h));
    }
}

proof fn lemma_search<S: Scalar>(
    xs: Seq<S>,
    n: nat,
    best: int,
    nan: spec_fn(S) -> bool,
    key: spec_fn(S) -> int,
)
    requires
        n <= xs.len(),
        argmax_gives(xs, n, best),
        forall|a: S, b: S, o: Order| #[trigger]
            call_ensures(S::order, (a, b), o) ==> {
                &&& o == Order::Unordered <==> nan(a) || nan(b)
                &&& o == Order::Greater <==> !nan(a) && !nan(b) && key(a) > key(b)
            },
    ensures
        0 <= best < n,
        n >= 2 ==> forall|i: int| 0 <= i < n ==> !nan(#[trigger] xs[i]),
        forall|i: int| 0 <= i < n ==> key(#[trigger] xs[i]) <= key(xs[best]),
        forall|i: int| best < i < n ==> key(#[trigger] xs[i]) < key(xs[best]),
    decreases n,
{
    if n > 1 {
        let k = (n - 1) as nat;
        let (b, o) = choose|b: int, o: Order|
            {
                &&& argmax_gives(xs, k, b)
                &&& #[trigger] order_gives(xs[b], xs[n - 1], o)
                &&& o != Order::Unordered
                &&& best == (if o == Order::Greater {
                    b
                } else {
                    n - 1
                })
            };
        lemma_search(xs, k, b, nan, key);
        assert(call_ensures(S::order, (xs[b], xs[n - 1]), o));
    }
}

/// Along the last dimension the place of the greatest element is found, the
/// last of equal ones; nothing is found exactly where an element that is
/// compared has no order.
pub proof fn argmax_finds_last_greatest<S: Scalar>(
    t: TensorView<S>,
    preds: Option<Seq<usize>>,
    nan: spec_fn(S) -> bool,
    key: spec_fn(S) -> int,
)
    requires
        t.dense(),
        t.shape.len() > 0,
        t.shape.last() > 0,
        match preds {
            Some(p) => argmax_rows_gives(t, p),
            None => argmax_rows_stuck(t),
        },
        forall|a: S, b: S, o: Order| #[trigger]
            call_ensures(S::order, (a, b), o) ==> {
                &&& o == Order::Unordered <==> nan(a) || nan(b)
                &&& o == Order::Greater <==> !nan(a) && !nan(b) && key(a) > key(b)
            },
    ensures
        preds is None <==> t.shape.last() >= 2 && exists|q: int|
            0 <= q < t.data.len() && nan(#[trigger] t.data[q]),
        preds matches Some(p) ==> p.len() * t.shape.last() == t.data.len(),
        preds matches Some(p) ==> forall|i: int|
            0 <= i < p.len() ==> #[trigger] p[i] < t.shape.last(),
        preds matches Some(p) ==> forall|i: int, c: int|
            #![trigger p[i], t.data[i * t.shape.last() + c]]
            0 <= i < p.len() && 0 <= c < t.shape.last() ==> {
                &&& key(t.data[i * t.shape.last() + c]) <= key(
                    t.data[i * t.shape.last() + p[i]],
                )
                &&& c > p[i] ==> key(t.data[i * t.shape.last() + c]) < key(
                    t.data[i * t.shape.last() + p[i]],
                )
            },
{
    let cols = t.shape.last() as nat;
    let rows = product(t.shape.drop_last());
    match preds {
        Some(p) => {
            assert forall|i: int, c: int|
                #![trigger p[i], t.data[i * t.shape.last() + c]]
                0 <= i < p.len() && 0 <= c < t.shape.last() implies {
                &&& key(t.data[i * t.shape.last() + c]) <= key(
                    t.data[i * t.shape.last() + p[i]],
                )
                &&& c > p[i] ==> key(t.data[i * t.shape.last() + c]) < key(
                    t.data[i * t.shape.last() + p[i]],
                )
            } by {
                let xs = row(t.data, cols, i);
                assert(p[i] < cols);
                lemma_search(xs, cols, p[i] as int, nan, key);
                assert(xs[c] == t.data[i * t.shape.last() + c]);
                assert(xs[p[i] as int] == t.data[i * t.shape.last() + p[i]]);
            }
            if cols >= 2 {
                assert forall|q: int| 0 <= q < t.data.len() implies !nan(#[trigger] t.data[q]) by {
                    lemma_place_cell(rows, cols, q);
                    let i = q / (cols as int);
                    let xs = row(t.data, cols, i);
                    assert(p[i] < cols);
                    lemma_search(xs, cols, p[i] as int, nan, key);
                    assert(!nan(xs[q % (cols as int)]));
                }
            }
        },
        None => {
            let i = choose|i: int|
                0 <= i < rows && argmax_stuck(#[trigger] row(t.data, t.shape.last() as nat, i));
            let xs = row(t.data, cols, i);
            let (n, b) = choose|n: nat, b: int|
                {
                    &&& 1 <= n < xs.len()
                    &&& argmax_gives(xs, n, b)
                    &&& #[trigger] order_gives(xs[b], xs[n as int], Order::Unordered)
                };
            lemma_search(xs, n, b, nan, key);
            assert(call_ensures(S::order, (xs[b], xs[n as int]), Order::Unordered));
            let c = if nan(xs[b]) {
                b
            } else {
                n as int
            };
            lemma_cell_inside(rows, cols, i, c);
            assert(nan(t.data[i * cols + c]));
        },
    }
}

/// The class of a sample is the place of its greatest logit, the last of equal
/// ones; there are no predictions exactly where a logit that is compared has no
/// order.
pub proof fn prediction_is_greatest_logit<S: Scalar>(
    layers: Seq<LinearView<S>>,
    x: TensorView<S>,
    preds: Option<Seq<usize>>,
    nan: spec_fn(S) -> bool,
    key: spec_fn(S) -> int,
) -> (y: TensorView<S>)
    requires
        predict_gives(layers, x, preds),
        layers.last().weight.shape[1] > 0,
        forall|a: S, b: S, o: Order| #[trigger]
            call_ensures(S::order, (a, b), o) ==> {
                &&& o == Order::Unordered <==> nan(a) || nan(b)
                &&& o == Order::Greater <==> !nan(a) && !nan(b) && key(a) > key(b)
            },
    ensures
        layers_give(layers, x, layers.len(), y),
        y.shape == seq![x.shape[0], layers.last().weight.shape[1]],
        row_major(y.shape, y.strides),
        preds is None <==> y.shape[1] >= 2 && exists|q: int|
            0 <= q < y.data.len() && nan(#[trigger] y.data[q]),
        preds matches Some(p) ==> p.len() == x.shape[0],
        preds matches Some(p) ==> forall|i: int|
            0 <= i < p.len() ==> #[trigger] p[i] < y.shape[1],
        preds matches Some(p) ==> forall|i: int, c: int|
            #![trigger p[i], y.data[i * y.shape[1] + c]]
            0 <= i < p.len() && 0 <= c < y.shape[1] ==> {
                &&& key(y.data[i * y.shape[1] + c]) <= key(y.data[i * y.shape[1] + p[i]])
                &&& c > p[i] ==> key(y.data[i * y.shape[1] + c]) < key(
                    y.data[i * y.shape[1] + p[i]],
                )
            },
{
    let y = choose|y: TensorView<S>| #[trigger] predict_via(layers, x, y, preds);
    assert(y.shape.drop_last() =~= seq![x.shape[0]]);
    lemma_product_1(y.shape.drop_last());
    argmax_finds_last_greatest(y, preds, nan, key);
    y
}

// ---------- message passing ----------

/// After a round each element is the damping times what its node hears plus
/// one minus the damping times what it was. A node hears the features of the
/// sources of the edges that lead to it, added up.
pub proof fn round_is_affine<S: Scalar>(
    m: Numbers<S>,
    src: Seq<usize>,
    dst: Seq<usize>,
    damping: S,
    state: TensorView<S>,
    next: TensorView<S>,
    node: int,
    f: int,
)
    requires
        follows(m),
        edges_fit(src, dst, state),
        round_gives(src, dst, damping, state, next),
        0 <= node < state.shape[0],
        0 <= f < state.shape[1],
    ensures
        next.shape == state.shape,
        row_major(next.shape, next.strides),
        next.data.len() == state.data.len(),
        ({
            let feat = state.shape[1] as int;
            let heard = Seq::new(
                dst.len(),
                |e: int| (dst[e] as int, (m.val)(state.data[src[e] * feat + f])),
            ).fold_left(
                m.zero,
                |s: int, t: (int, int)|
                    if t.0 == node {
                        (m.add)(s, t.1)
                    } else {
                        s
                    },
            );
            (m.val)(next.data[node * feat + f]) == (m.add)(
                (m.mul)((m.val)(damping), heard),
                (m.mul)(
                    (m.sub)((m.num)(1), (m.val)(damping)),
                    (m.val)(state.data[node * feat + f]),
                ),
            )
        }),
        exact(m) ==> ({
            let feat = state.shape[1] as int;
            let heard = Seq::new(
                dst.len(),
                |e: int|
                    if dst[e] == node {
                        (m.val)(state.data[src[e] * feat + f])
                    } else {
                        0
                    },
            ).fold_left(0, |s: int, t: int| s + t);
            (m.val)(next.data[node * feat + f]) == (m.val)(damping) * heard + (1 - (m.val)(
                damping,
            )) * (m.val)(state.data[node * feat + f])
        }),
{
    let feat = state.shape[1] as int;
    let nodes = state.shape[0] as nat;
    let (edges, agg, keep) = choose|e: TensorView<S>, a: TensorView<S>, k: S|
        {
            &&& #[trigger] gathered(state, src, e)
            &&& scatter_gives(e, dst, nodes, a)
            &&& #[trigger] blend_gives(damping, a, state, k, next)
        };
    lemma_product_2(state.shape);
    lemma_product_2(next.shape);
    lemma_cell_inside(nodes, feat as nat, node, f);
    let p = node * feat + f;
    scatter_adds_rows(m, edges, dst, nodes, agg, node, f);
    assert forall|e: int| 0 <= e < src.len() implies #[trigger] edges.data[e * feat + f]
        == state.data[src[e] * feat + f] by {
        gather_copies_rows(state, src, edges, e, f);
    }
    assert(blend_elem_gives(damping, keep, agg.data[p], state.data[p], next.data[p]));
    lemma_keep(m, damping, keep);
    lemma_blend(m, damping, keep, agg.data[p], state.data[p], next.data[p]);
    assert(Seq::new(
        dst.len(),
        |e: int| (dst[e] as int, (m.val)(edges.data[e * edges.shape[1] + f])),
    ) =~= Seq::new(dst.len(), |e: int| (dst[e] as int, (m.val)(state.data[src[e] * feat + f]))));
    if exact(m) {
        assert(Seq::new(
            dst.len(),
            |e: int|
                if dst[e] == node {
                    (m.val)(edges.data[e * edges.shape[1] + f])
                } else {
                    0
                },
        ) =~= Seq::new(
            dst.len(),
            |e: int|
                if dst[e] == node {
                    (m.val)(state.data[src[e] * feat + f])
                } else {
                    0
                },
        ));
    }
}

proof fn lemma_keep<S: Scalar>(m: Numbers<S>, damping: S, keep: S)
    requires
        follows(m),
        complement_gives(damping, keep),
    ensures
        (m.val)(keep) == (m.sub)((m.num)(1), (m.val)(damping)),
{
}

proof fn lemma_blend<S: Scalar>(m: Numbers<S>, damping: S, keep: S, new: S, old_elem: S, r: S)
    requires
        follows(m),
        blend_elem_gives(damping, keep, new, old_elem, r),
    ensures
        (m.val)(r) == (m.add)(
            (m.mul)((m.val)(damping), (m.val)(new)),
            (m.mul)((m.val)(keep), (m.val)(old_elem)),
        ),
{
}

proof fn lemma_one_term(xs: Seq<int>, at: int)
    requires
        0 <= at < xs.len(),
        forall|e: int| 0 <= e < xs.len() && e != at ==> #[trigger] xs[e] == 0,
    ensures
        xs.fold_left(0, |s: int, t: int| s + t) == xs[at],
    decreases xs.len(),
{
    let rest = xs.drop_last();
    if at == xs.len() - 1 {
        lemma_no_terms(rest);
    } else {
        lemma_one_term(rest, at);
        assert(xs[xs.len() - 1] == 0);
    }
}

proof fn lemma_no_terms(xs: Seq<int>)
    requires
        forall|e: int| 0 <= e < xs.len() ==> #[trigger] xs[e] == 0,
    ensures
        xs.fold_left(0, |s: int, t: int| s + t) == 0,
    decreases xs.len(),
{
    if xs.len() > 0 {
        lemma_no_terms(xs.drop_last());
        assert(xs[xs.len() - 1] == 0);
    }
}

/// On a ring each node hears the one before it; with damping one the round
/// moves every state along.
pub proof fn ring_round_moves_states_along<S: Scalar>(
    m: Numbers<S>,
    src: Seq<usize>,
    dst: Seq<usize>,
    damping: S,
    state: TensorView<S>,
    next: TensorView<S>,
    node: int,
    f: int,
)
    requires
        exact(m),
        edges_fit(src, dst, state),
        src.len() == state.shape[0],
        forall|e: int| 0 <= e < src.len() ==> #[trigger] src[e] == e,
        forall|e: int|
            0 <= e < dst.len() ==> #[trigger] dst[e] == if e + 1 < dst.len() {
                e + 1
            } else {
                0
            },
        round_gives(src, dst, damping, state, next),
        0 <= node < state.shape[0],
        0 <= f < state.shape[1],
    ensures
        ({
            let feat = state.shape[1] as int;
            let before = if node == 0 {
                state.shape[0] - 1
            } else {
                node - 1
            };
            let d = (m.val)(damping);
            &&& (m.val)(next.data[node * feat + f]) == d * (m.val)(state.data[before * feat + f])
                + (1 - d) * (m.val)(state.data[node * feat + f])
            &&& d == 1 ==> (m.val)(next.data[node * feat + f]) == (m.val)(
                state.data[before * feat + f],
            )
        }),
{
    let feat = state.shape[1] as int;
    let before = if node == 0 {
        state.shape[0] - 1
    } else {
        node - 1
    };
    round_is_affine(m, src, dst, damping, state, next, node, f);
    let terms = Seq::new(
        dst.len(),
        |e: int|
            if dst[e] == node {
                (m.val)(state.data[src[e] * feat + f])
            } else {
                0
            },
    );
    assert forall|e: int| 0 <= e < terms.len() && e != before implies #[trigger] terms[e] == 0 by {
        assert(dst[e] != node);
    }
    assert(dst[before] == node);
    assert(src[before] == before);
    lemma_one_term(terms, before);
    let d = (m.val)(damping);
    let heard = (m.val)(state.data[before * feat + f]);
    let own = (m.val)(state.data[node * feat + f]);
    assert(d == 1 ==> d * heard + (1 - d) * own == heard) by (nonlinear_arith);
}

proof fn lemma_rotated_sum(xs: Seq<int>, ys: Seq<int>)
    requires
        xs.len() == ys.len(),
        xs.len() > 0,
        forall|i: int|
            0 <= i < ys.len() ==> #[trigger] ys[i] == xs[if i == 0 {
                xs.len() - 1
            } else {
                i - 1
            }],
    ensures
        ys.fold_left(0, |s: int, t: int| s + t) == xs.fold_left(0, |s: int, t: int| s + t),
{
    let front = xs.drop_last();
    assert(ys =~= seq![xs.last()] + front);
    lemma_sum_after(xs.last(), front);
}

proof fn lemma_sum_after(x: int, xs: Seq<int>)
    ensures
        (seq![x] + xs).fold_left(0, |s: int, t: int| s + t) == x + xs.fold_left(
            0,
            |s: int, t: int| s + t,
        ),
    decreases xs.len(),
{
    let all = seq![x] + xs;
    if xs.len() == 0 {
        assert(all.drop_last() =~= Seq::<int>::empty());
        assert(all.drop_last().fold_left(0, |s: int, t: int| s + t) == 0);
    } else {
        assert(all.drop_last() =~= seq![x] + xs.drop_last());
        lemma_sum_after(x, xs.drop_last());
    }
}

proof fn lemma_blended_sum(d: int, xs: Seq<int>, ys: Seq<int>, zs: Seq<int>)
    requires
        xs.len() == zs.len(),
        ys.len() == zs.len(),
        forall|i: int| 0 <= i < zs.len() ==> #[trigger] zs[i] == d * ys[i] + (1 - d) * xs[i],
    ensures
        zs.fold_left(0, |s: int, t: int| s + t) == d * ys.fold_left(0, |s: int, t: int| s + t) + (1
            - d) * xs.fold_left(0, |s: int, t: int| s + t),
    decreases zs.len(),
{
    let a = ys.fold_left(0, |s: int, t: int| s + t);
    let b = xs.fold_left(0, |s: int, t: int| s + t);
    if zs.len() == 0 {
        assert(d * a + (1 - d) * b == 0) by (nonlinear_arith)
            requires
                a == 0,
                b == 0,
        ;
    } else {
        assert(zs[zs.len() - 1] == d * ys[ys.len() - 1] + (1 - d) * xs[xs.len() - 1]);
        lemma_blended_sum(d, xs.drop_last(), ys.drop_last(), zs.drop_last());
        let p = ys.drop_last().fold_left(0, |s: int, t: int| s + t);
        let q = xs.drop_last().fold_left(0, |s: int, t: int| s + t);
        let y = ys.last();
        let x = xs.last();
        assert(d * p + (1 - d) * q + (d * y + (1 - d) * x) == d * (p + y) + (1 - d) * (q + x))
            by (nonlinear_arith);
    }
}

/// A round on a ring keeps the sum of each feature over all nodes, whatever the
/// damping.
pub proof fn ring_round_keeps_the_sum<S: Scalar>(
    m: Numbers<S>,
    src: Seq<usize>,
    dst: Seq<usize>,
    damping: S,
    state: TensorView<S>,
    next: TensorView<S>,
    f: int,
)
    requires
        exact(m),
        edges_fit(src, dst, state),
        src.len() == state.shape[0],
        state.shape[0] > 0,
        forall|e: int| 0 <= e < src.len() ==> #[trigger] src[e] == e,
        forall|e: int|
            0 <= e < dst.len() ==> #[trigger] dst[e] == if e + 1 < dst.len() {
                e + 1
            } else {
                0
            },
        round_gives(src, dst, damping, state, next),
        0 <= f < state.shape[1],
    ensures
        Seq::new(
            state.shape[0] as nat,
            |n: int| (m.val)(next.data[n * state.shape[1] + f]),
        ).fold_left(0, |s: int, t: int| s + t) == Seq::new(
            state.shape[0] as nat,
            |n: int| (m.val)(state.data[n * state.shape[1] + f]),
        ).fold_left(0, |s: int, t: int| s + t),
{
    let nodes = state.shape[0] as nat;
    let xs = Seq::new(nodes, |n: int| (m.val)(state.data[n * state.shape[1] + f]));
    let zs = Seq::new(nodes, |n: int| (m.val)(next.data[n * state.shape[1] + f]));
    let ys = Seq::new(
        nodes,
        |n: int|
            xs[if n == 0 {
                nodes - 1
            } else {
                n - 1
            }],
    );
    let d = (m.val)(damping);
    assert forall|n: int| 0 <= n < nodes implies #[trigger] zs[n] == d * ys[n] + (1 - d)
        * xs[n] by {
        ring_round_moves_states_along(m, src, dst, damping, state, next, n, f);
    }
    lemma_blended_sum(d, xs, ys, zs);
    lemma_rotated_sum(xs, ys);
    let a = xs.fold_left(0, |s: int, t: int| s + t);
    assert(d * a + (1 - d) * a == a) by (nonlinear_arith);
}

/// A run takes its rounds one after the other: one that took none ends where
/// it began, and of any other the first round comes off, with how far it moved.
pub proof fn run_is_rounds_in_turn<S: Scalar>(
    src: Seq<usize>,
    dst: Seq<usize>,
    damping: S,
    first: TensorView<S>,
    deltas: Seq<S>,
    last: TensorView<S>,
)
    requires
        leads_to(src, dst, damping, first, deltas, last),
    ensures
        deltas.len() == 0 ==> last == first,
        deltas.len() > 0 ==> exists|second: TensorView<S>|
            {
                &&& #[trigger] round_gives(src, dst, damping, first, second)
                &&& distance_gives(second.data, first.data, deltas[0])
                &&& leads_to(src, dst, damping, second, deltas.skip(1), last)
            },
{
    let states = choose|states: Seq<TensorView<S>>|
        {
            &&& #[trigger] run_gives(src, dst, damping, states, deltas)
            &&& states[0] == first
            &&& states.last() == last
        };
    if deltas.len() > 0 {
        let second = states[1];
        let start: int = 0;
        assert(round_gives(src, dst, damping, states[start], states[start + 1]));
        assert(distance_gives(states[start + 1].data, states[start].data, deltas[start]));
        let rest = states.skip(1);
        let moved = deltas.skip(1);
        assert forall|t: int| 0 <= t < moved.len() implies #[trigger] round_gives(
            src,
            dst,
            damping,
            rest[t],
            rest[t + 1],
        ) by {
            assert(round_gives(src, dst, damping, states[t + 1], states[(t + 1) + 1]));
        }
        assert forall|t: int| 0 <= t < moved.len() implies distance_gives(
            rest[t + 1].data,
            rest[t].data,
            #[trigger] moved[t],
        ) by {
            assert(distance_gives(states[(t + 1) + 1].data, states[t + 1].data, deltas[t + 1]));
        }
        assert(run_gives(src, dst, damping, rest, moved));
        assert(leads_to(src, dst, damping, second, moved, last));
    }
}

/// A run halts at the first round that moves by less than the threshold, and
/// at the end of its budget otherwise.
pub proof fn run_halts_at_first_small_move<S: Scalar>(
    m: Numbers<S>,
    eps: S,
    deltas: Seq<S>,
    max_iters: nat,
)
    requires
        exact(m),
        halted(eps, deltas, max_iters),
    ensures
        deltas.len() <= max_iters,
        forall|t: int|
            0 <= t < deltas.len() - 1 ==> (m.val)(#[trigger] deltas[t]) >= (m.val)(eps),
        deltas.len() < max_iters ==> deltas.len() > 0 && (m.val)(deltas.last()) < (m.val)(eps),
{
    assert forall|t: int| 0 <= t < deltas.len() - 1 implies (m.val)(#[trigger] deltas[t])
        >= (m.val)(eps) by {
        assert(not_below(deltas[t], eps));
    }
    if deltas.len() < max_iters {
        assert(call_ensures(S::order, (deltas.last(), eps), Order::Less));
    }
}

// ---------- agreement ----------

/// The largest difference bounds the difference at every place. Of `maximum`
/// this asks only that it is below neither of its arguments.
pub proof fn largest_difference_bounds_all<S: Scalar>(
    xs: Seq<S>,
    ys: Seq<S>,
    n: nat,
    r: S,
    key: spec_fn(S) -> int,
    i: int,
) -> (found: (S, S))
    requires
        max_diff_gives(xs, ys, n, r),
        forall|a: S, b: S, c: S| #[trigger]
            call_ensures(S::maximum, (a, b), c) ==> key(c) >= key(a) && key(c) >= key(b),
        0 <= i < n,
    ensures
        call_ensures(S::minus, (xs[i], ys[i]), found.0),
        call_ensures(S::abs, (found.0,), found.1),
        key(found.1) <= key(r),
    decreases n,
{
    let k = (n - 1) as nat;
    let s = choose|s: S|
        max_diff_gives(xs, ys, k, s) && #[trigger] wider_gives(s, xs[n - 1], ys[n - 1], r);
    let (d, g) = choose|d: S, g: S|
        {
            &&& minus_gives(xs[n - 1], ys[n - 1], d)
            &&& #[trigger] abs_gives(d, g)
            &&& #[trigger] maximum_gives(s, g, r)
        };
    assert(call_ensures(S::maximum, (s, g), r));
    if i == k {
        (d, g)
    } else {
        largest_difference_bounds_all(xs, ys, k, s, key, i)
    }
}

/// The largest difference is reached at some place, or is zero. Of `maximum`
/// this asks only that it gives one of its arguments.
pub proof fn largest_difference_is_reached<S: Scalar>(
    xs: Seq<S>,
    ys: Seq<S>,
    n: nat,
    r: S,
) -> (found: (int, S))
    requires
        max_diff_gives(xs, ys, n, r),
        forall|a: S, b: S, c: S| #[trigger]
            call_ensures(S::maximum, (a, b), c) ==> c == a || c == b,
    ensures
        call_ensures(S::zero, (), r) || {
            &&& 0 <= found.0 < n
            &&& call_ensures(S::minus, (xs[found.0], ys[found.0]), found.1)
            &&& call_ensures(S::abs, (found.1,), r)
        },
    decreases n,
{
    if n == 0 {
        (0, r)
    } else {
        let k = (n - 1) as nat;
        let s = choose|s: S|
            max_diff_gives(xs, ys, k, s) && #[trigger] wider_gives(s, xs[n - 1], ys[n - 1], r);
        let (d, g) = choose|d: S, g: S|
            {
                &&& minus_gives(xs[n - 1], ys[n - 1], d)
                &&& #[trigger] abs_gives(d, g)
                &&& #[trigger] maximum_gives(s, g, r)
            };
        assert(call_ensures(S::maximum, (s, g), r));
        if r == g {
            (n - 1, d)
        } else {
            largest_difference_is_reached(xs, ys, k, s)
        }
    }
}

/// The largest difference in numbers: the differences without their signs are
/// at most that, and it is one of them unless it is zero.
pub proof fn largest_difference_in_numbers<S: Scalar>(
    m: Numbers<S>,
    xs: Seq<S>,
    ys: Seq<S>,
    n: nat,
    r: S,
)
    requires
        follows(m),
        n <= xs.len(),
        n <= ys.len(),
        max_diff_gives(xs, ys, n, r),
    ensures
        (m.val)(r) == Seq::new(
            n,
            |i: int| (m.abs)((m.sub)((m.val)(xs[i]), (m.val)(ys[i]))),
        ).fold_left(m.zero, |s: int, t: int| (m.max)(s, t)),
        exact(m) ==> forall|i: int|
            0 <= i < n ==> -(m.val)(r) <= (m.val)(#[trigger] xs[i]) - (m.val)(ys[i]) <= (m.val)(r),
        exact(m) ==> (m.val)(r) == 0 || exists|i: int|
            0 <= i < n && ((m.val)(#[trigger] xs[i]) - (m.val)(ys[i]) == (m.val)(r) || (m.val)(
                ys[i],
            ) - (m.val)(xs[i]) == (m.val)(r)),
    decreases n,
{
    if n > 0 {
        let k = (n - 1) as nat;
        let s = choose|s: S|
            max_diff_gives(xs, ys, k, s) && #[trigger] wider_gives(s, xs[n - 1], ys[n - 1], r);
        largest_difference_in_numbers(m, xs, ys, k, s);
        let f = |i: int| (m.abs)((m.sub)((m.val)(xs[i]), (m.val)(ys[i])));
        assert(Seq::new(n, f).drop_last() =~= Seq::new(k, f));
        lemma_wider(m, s, xs[n - 1], ys[n - 1], r);
        if exact(m) {
            let last = n - 1;
            if (m.val)(r) != 0 && (m.val)(r) == (m.val)(s) {
                let i = choose|i: int|
                    0 <= i < k && ((m.val)(#[trigger] xs[i]) - (m.val)(ys[i]) == (m.val)(s) || (
                    m.val)(ys[i]) - (m.val)(xs[i]) == (m.val)(s));
                assert((m.val)(xs[i]) - (m.val)(ys[i]) == (m.val)(r) || (m.val)(ys[i]) - (m.val)(
                    xs[i],
                ) == (m.val)(r));
            } else if (m.val)(r) != 0 {
                assert((m.val)(xs[last]) - (m.val)(ys[last]) == (m.val)(r) || (m.val)(ys[last])
                    - (m.val)(xs[last]) == (m.val)(r));
            }
        }
    }
}

proof fn lemma_wider<S: Scalar>(m: Numbers<S>, s: S, a: S, b: S, r: S)
    requires
        follows(m),
        wider_gives(s, a, b, r),
    ensures
        (m.val)(r) == (m.max)((m.val)(s), (m.abs)((m.sub)((m.val)(a), (m.val)(b)))),
{
}

/// How many places two lists agree on is the number of places with the same
/// entry in both.
pub proof fn matches_are_counted(a: Seq<usize>, b: Seq<usize>)
    ensures
        ({
            let n = if a.len() < b.len() {
                a.len()
            } else {
                b.len()
            };
            matches_in(a, b) == Seq::new(n, |i: int| i).filter(|i: int| a[i] == b[i]).len()
        }),
{
    let n = if a.len() < b.len() {
        a.len()
    } else {
        b.len()
    };
    lemma_matches(a, b, n);
}

proof fn lemma_matches(a: Seq<usize>, b: Seq<usize>, n: nat)
    ensures
        matches_among(a, b, n) == Seq::new(n, |i: int| i).filter(|i: int| a[i] == b[i]).len(),
    decreases n,
{
    reveal(Seq::filter);
    if n > 0 {
        let k = (n - 1) as nat;
        lemma_matches(a, b, k);
        assert(Seq::new(n, |i: int| i).drop_last() =~= Seq::new(k, |i: int| i));
    }
}

/// A comparison that passes has every logit within the tolerance of the
/// expected one and the greatest logits of all samples in the same place.
pub proof fn passed_comparison_agrees<S: Scalar>(
    m: Numbers<S>,
    layers: Seq<LinearView<S>>,
    inputs: TensorView<S>,
    logits: TensorView<S>,
    expected: TensorView<S>,
    labels: TensorView<S>,
    report: Report<S>,
    tolerance: S,
) -> (found: (Seq<usize>, Seq<usize>))
    requires
        exact(m),
        logits.dense(),
        expected.dense(),
        logits.shape == expected.shape,
        report_gives(layers, inputs, logits, expected, labels, report),
        report.argmax_agree == report.samples,
        order_gives(report.max_diff, tolerance, Order::Less),
    ensures
        forall|i: int|
            0 <= i < logits.data.len() ==> -(m.val)(tolerance) < (m.val)(
                #[trigger] logits.data[i],
            ) - (m.val)(expected.data[i]) < (m.val)(tolerance),
        predict_gives(layers, inputs, Some(found.0)),
        argmax_rows_gives(expected, found.1),
        found.0.len() == inputs.shape[0] && found.1.len() == inputs.shape[0] ==> found.0
            == found.1,
        exists|classes: Seq<usize>|
            {
                &&& #[trigger] indices_give(labels.data, classes)
                &&& report.correct == matches_in(found.0, classes)
            },
{
    let (preds, wanted, classes) = choose|p: Seq<usize>, w: Seq<usize>, c: Seq<usize>| #[trigger]
        report_via(layers, inputs, logits, expected, labels, p, w, c, report);
    largest_difference_in_numbers(
        m,
        logits.data,
        expected.data,
        logits.data.len(),
        report.max_diff,
    );
    assert(call_ensures(S::order, (report.max_diff, tolerance), Order::Less));
    if preds.len() == wanted.len() {
        full_agreement(preds, wanted);
    }
    assert(indices_give(labels.data, classes));
    (preds, wanted)
}

} // verus!
