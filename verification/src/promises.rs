//! What the functions accept and what their results come to, from a call to
//! what its caller finds in the result.
use vstd::prelude::*;
use vstd::utf8::encode_utf8;

use crate::agreement::{indices_give, report_gives, report_via, Report};
use crate::answers::answer_announces_its_body;
use crate::graph::{edges_fit, hot_node, not_below, ring, run_until_settled, Run};
use crate::grid::lemma_cell_inside;
use crate::http::{closes_after, head_request, predictions_json, reply_with_predictions, Request};
use crate::inference::{largest_difference_in_numbers, matches_are_counted};
use crate::meaning::{follows, Numbers};
use crate::model::two_layer_mlp;
use crate::nn::{
    accepts_all, accepts_at, argmax_rows_gives, flow, fresh_linear_gives, layer_fits,
    logits_are_ordered, predict_gives,
};
use crate::nn::{LinearView, Mlp};
use crate::random::{uniform_gives, xorshift};
use crate::reading::{count_is_product_of_dimensions, stride_is_product_of_later_dimensions};
use crate::rtw::RtwError;
use crate::scalar::{from_u64_gives, Order, Scalar};
use crate::shape::{countable, fits, lemma_product_1, lemma_product_2, product, stridable};
use crate::tensor::{addable, Tensor, TensorView};
use crate::text::is_space;
use crate::weights::Weights;
use crate::wire::{answer_holds_list_and_time, list_reads_back, part_reads, reads_as};

verus! {

// ---------- tensors ----------

/// A tensor from a list or by a new shape holds the elements in their order;
/// one step in a dimension passes over as many as the product of the dimensions
/// after it.
pub proof fn elements_stay_in_order<S: Scalar>(
    t: Tensor<S>,
    shape: &[usize],
    data: Vec<S>,
    made: Tensor<S>,
    i: int,
)
    requires
        call_ensures(Tensor::<S>::from_vec, (data, shape), made) || (data@ == t@.data
            && call_ensures(Tensor::<S>::reshape, (&t, shape), made)),
        0 <= i < shape@.len(),
    ensures
        made@.data == data@,
        made@.shape == shape@,
        made@.strides.len() == shape@.len(),
        made@.strides[i] == shape@.skip(i + 1).fold_left(1int, |n: int, d: usize| n * d),
{
    stride_is_product_of_later_dimensions(made@.shape, made@.strides, i);
}

/// In a matrix element `(i, j)` stands `i` rows and `j` elements on.
pub proof fn matrix_elements_stand_by_rows<S: Scalar>(t: Tensor<S>, i: usize, j: usize, x: S)
    requires
        t@.wf(),
        t@.shape.len() == 2,
        call_ensures(Tensor::<S>::at2, (&t, i, j), x),
    ensures
        x == t@.data[i * t@.shape[1] + j],
{
    let start: int = 0;
    stride_is_product_of_later_dimensions(t@.shape, t@.strides, start);
    stride_is_product_of_later_dimensions(t@.shape, t@.strides, start + 1);
    count_is_product_of_dimensions(t@.shape.skip(1));
    count_is_product_of_dimensions(t@.shape.skip(2));
    lemma_product_1(t@.shape.skip(1));
    assert(t@.shape.skip(2).len() == 0);
    assert(product(t@.shape.skip(2)) == 1);
    assert(t@.strides[0] == t@.shape[1]);
    let step = t@.strides[1];
    assert(j * step == j) by (nonlinear_arith)
        requires
            step == 1,
    ;
}

/// A tensor is dense where it has as many elements as the product of its
/// dimensions, and the products fit.
pub proof fn dense_is_a_matter_of_counts<S>(t: TensorView<S>)
    ensures
        t.dense() <==> {
            &&& fits(t.shape)
            &&& t.data.len() == t.shape.fold_left(1int, |n: int, d: usize| n * d)
        },
        t.matrix() <==> t.dense() && t.shape.len() == 2,
{
    count_is_product_of_dimensions(t.shape);
}

/// The count of a shape can be taken where the products of its first
/// dimensions are `usize` values, and its strides where those of its last ones
/// are, but for the first.
pub proof fn counting_is_a_matter_of_products(shape: Seq<usize>)
    ensures
        countable(shape) <==> forall|i: int|
            0 <= i <= shape.len() ==> (#[trigger] shape.take(i)).fold_left(
                1int,
                |n: int, d: usize| n * d,
            ) <= usize::MAX,
        stridable(shape) <==> forall|i: int|
            1 <= i <= shape.len() ==> (#[trigger] shape.skip(i)).fold_left(
                1int,
                |n: int, d: usize| n * d,
            ) <= usize::MAX,
{
    assert forall|i: int| 0 <= i <= shape.len() implies (#[trigger] shape.take(i)).fold_left(
        1int,
        |n: int, d: usize| n * d,
    ) == product(shape.take(i)) by {
        count_is_product_of_dimensions(shape.take(i));
    }
    assert forall|i: int| 0 <= i <= shape.len() implies (#[trigger] shape.skip(i)).fold_left(
        1int,
        |n: int, d: usize| n * d,
    ) == product(shape.skip(i)) by {
        count_is_product_of_dimensions(shape.skip(i));
    }
    if countable(shape) {
        assert forall|i: int| 0 <= i <= shape.len() implies (#[trigger] shape.take(i)).fold_left(
            1int,
            |n: int, d: usize| n * d,
        ) <= usize::MAX by {
            assert(product(shape.take(i)) <= usize::MAX);
        }
    }
    if stridable(shape) {
        assert forall|i: int| 1 <= i <= shape.len() implies (#[trigger] shape.skip(i)).fold_left(
            1int,
            |n: int, d: usize| n * d,
        ) <= usize::MAX by {
            assert(product(shape.skip(i)) <= usize::MAX);
        }
    }
}

/// Two tensors can be added where they have the same shape, or where the first
/// is a matrix and the second a row as long as those of the first.
pub proof fn sums_take_equal_shapes_or_a_row(a: Seq<usize>, b: Seq<usize>)
    ensures
        addable(a, b) <==> a == b || (a.len() == 2 && b == seq![a[1]]),
{
    if b.len() == 1 && b[0] == a[1] {
        assert(b =~= seq![a[1]]);
    }
}

// ---------- layers and networks ----------

/// A layer accepts a batch where its features are the inputs of the layer, the
/// outputs can be held, and the bias has one element for each output or one for
/// each output of each sample.
pub proof fn layers_accept_what_they_can_take<S>(layer: LinearView<S>, shape: Seq<usize>)
    ensures
        layer.accepts(shape) <==> {
            &&& layer.weight.dense()
            &&& layer.weight.shape.len() == 2
            &&& layer.bias.dense()
            &&& shape.len() == 2
            &&& shape[1] == layer.weight.shape[0]
            &&& shape[0] * layer.weight.shape[1] <= usize::MAX
            &&& layer.bias.shape == seq![layer.weight.shape[1]] || layer.bias.shape == seq![
                shape[0],
                layer.weight.shape[1],
            ]
        },
{
    if layer.bias.shape.len() == 1 && layer.bias.shape[0] == layer.weight.shape[1] {
        assert(layer.bias.shape =~= seq![layer.weight.shape[1]]);
    }
}

/// A network accepts a batch where each layer accepts what comes out of the
/// one before it: as many samples, with one feature for each output.
pub proof fn networks_accept_layer_by_layer<S>(layers: Seq<LinearView<S>>, shape: Seq<usize>)
    ensures
        accepts_all(layers, shape) <==> forall|i: int|
            0 <= i < layers.len() ==> (#[trigger] layers[i]).accepts(
                if i == 0 {
                    shape
                } else {
                    seq![shape[0], layers[i - 1].weight.shape[1]]
                },
            ),
{
    if accepts_all(layers, shape) {
        assert forall|i: int| 0 <= i < layers.len() implies (#[trigger] layers[i]).accepts(
            if i == 0 {
                shape
            } else {
                seq![shape[0], layers[i - 1].weight.shape[1]]
            },
        ) by {
            assert(accepts_at(layers, shape, i));
        }
    }
    if forall|i: int|
        0 <= i < layers.len() ==> (#[trigger] layers[i]).accepts(
            if i == 0 {
                shape
            } else {
                seq![shape[0], layers[i - 1].weight.shape[1]]
            },
        ) {
        assert forall|i: int| 0 <= i < layers.len() implies #[trigger] accepts_at(
            layers,
            shape,
            i,
        ) by {
            assert(layers[i].accepts(flow(layers, shape, i as nat)));
        }
    }
}

/// A layer can be drawn where its weights can be held, one more than them
/// included.
pub proof fn layers_can_be_drawn_where_they_fit(dims: Seq<usize>, i: int)
    ensures
        layer_fits(dims, i) <==> dims[i] * dims[i + 1] + 1 <= usize::MAX,
{
}

/// A fresh network has a layer between each two neighbouring sizes; layer `i`
/// draws its weights from the seed plus `7919 i`.
pub proof fn fresh_networks_space_their_seeds<S: Scalar>(
    dims: &[usize],
    seed: u64,
    mlp: Mlp<S>,
    i: int,
)
    requires
        call_ensures(Mlp::<S>::new, (dims, seed), mlp),
        0 <= i < mlp@.len(),
        seed + i * 7919 <= u64::MAX,
    ensures
        mlp@.len() == dims@.len() - 1,
        fresh_linear_gives(dims@[i], dims@[i + 1], (seed + i * 7919) as u64, mlp@[i]),
{
}

/// Where any two elements have an order, predictions are owed for every batch.
pub proof fn ordered_elements_have_predictions<S: Scalar>(
    layers: Seq<LinearView<S>>,
    x: TensorView<S>,
)
    requires
        forall|a: S, b: S, o: Order| #[trigger]
            call_ensures(S::order, (a, b), o) ==> o != Order::Unordered,
    ensures
        logits_are_ordered(layers, x),
{
}

/// A network is made of the tensors under the four names, where those are there
/// and the weights are matrices with a bias for each output.
pub proof fn networks_come_from_named_tensors<S: Scalar>(w: Weights<S>, mlp: Option<Mlp<S>>)
    requires
        call_ensures(two_layer_mlp::<S>, (&w,), mlp),
    ensures
        mlp is Some <==> {
            &&& w@.contains_key("fc1.weight"@) && w@["fc1.weight"@]@.shape.len() == 2
            &&& w@.contains_key("fc1.bias"@) && w@["fc1.bias"@]@.shape.len() >= 1
            &&& w@["fc1.bias"@]@.shape[0] == w@["fc1.weight"@]@.shape[1]
            &&& w@.contains_key("fc2.weight"@) && w@["fc2.weight"@]@.shape.len() == 2
            &&& w@.contains_key("fc2.bias"@) && w@["fc2.bias"@]@.shape.len() >= 1
            &&& w@["fc2.bias"@]@.shape[0] == w@["fc2.weight"@]@.shape[1]
        },
        mlp matches Some(net) ==> {
            &&& net@.len() == 2
            &&& net@[0].weight == w@["fc1.weight"@]@
            &&& net@[0].bias == w@["fc1.bias"@]@
            &&& net@[1].weight == w@["fc2.weight"@]@
            &&& net@[1].bias == w@["fc2.bias"@]@
        },
{
}

// ---------- draws ----------

/// A uniform number is the number that 21 bits of the state write, over how many
/// such numbers there are.
pub proof fn uniform_numbers_are_bits_of_the_state<S: Scalar>(m: Numbers<S>, state: u64, u: S)
    requires
        follows(m),
        uniform_gives(state, u),
    ensures
        (m.val)(u) == (m.div)((m.num)((state >> 11) % 0x20_0000), (m.num)(0x20_0000)),
{
}

/// The new state of the generator comes from the old one by three shifts.
pub proof fn states_are_shifted(s: u64)
    ensures
        ({
            let a = s ^ (s << 13);
            let b = a ^ (a >> 7);
            xorshift(s) == b ^ (b << 17)
        }),
{
}

// ---------- graphs ----------

/// On a ring each node hears one node, the one before it.
pub proof fn ring_nodes_hear_the_one_before(
    num_nodes: usize,
    edges: (Vec<usize>, Vec<usize>),
    node: int,
) -> (edge: int)
    requires
        call_ensures(ring, (num_nodes,), edges),
        0 <= node < num_nodes,
    ensures
        edges.0@.len() == num_nodes,
        edges.1@.len() == num_nodes,
        0 <= edge < num_nodes,
        edges.1@[edge] == node,
        edges.0@[edge] == if node == 0 {
            num_nodes - 1
        } else {
            node - 1
        },
        forall|e: int| 0 <= e < num_nodes && e != edge ==> #[trigger] edges.1@[e] != node,
{
    let edge = if node == 0 {
        num_nodes - 1
    } else {
        node - 1
    };
    assert(edges.1@[edge] == node);
    assert(edges.0@[edge] == edge);
    edge
}

/// At the start all features of the first node are one, and all others zero.
pub proof fn first_node_is_hot<S: Scalar>(
    m: Numbers<S>,
    num_nodes: usize,
    feat: usize,
    state: Tensor<S>,
    node: int,
    f: int,
)
    requires
        follows(m),
        call_ensures(hot_node::<S>, (num_nodes, feat), state),
        0 <= node < num_nodes,
        0 <= f < feat,
    ensures
        state@.shape == seq![num_nodes, feat],
        state@.data.len() == num_nodes * feat,
        (m.val)(state@.data[node * feat + f]) == if node == 0 {
            (m.num)(1)
        } else {
            m.zero
        },
{
    lemma_product_2(state@.shape);
    lemma_cell_inside(num_nodes as nat, feat as nat, node, f);
    let p = node * feat + f;
    if node == 0 {
        assert(p == f) by (nonlinear_arith)
            requires
                p == node * feat + f,
                node == 0,
        ;
        assert(from_u64_gives(1, state@.data[p]));
    } else {
        assert(p >= feat) by (nonlinear_arith)
            requires
                p == node * feat + f,
                node >= 1,
                f >= 0,
                feat >= 0,
        ;
    }
}

/// A graph fits a state where it has a row for each node that an edge names,
/// and a row for each edge can be held.
pub proof fn graphs_fit_states_that_hold_their_nodes<S>(
    src: Seq<usize>,
    dst: Seq<usize>,
    state: TensorView<S>,
)
    ensures
        edges_fit(src, dst, state) <==> {
            &&& state.dense()
            &&& state.shape.len() == 2
            &&& src.len() == dst.len()
            &&& src.len() * state.shape[1] <= usize::MAX
            &&& forall|e: int|
                #![trigger src[e]]
                #![trigger dst[e]]
                0 <= e < src.len() ==> src[e] < state.shape[0] && dst[e] < state.shape[0]
        },
{
}

/// A run goes on while no move was below the threshold and rounds are left: it
/// says that it settled exactly where its last move was below.
pub proof fn runs_settle_at_the_first_small_move<S: Scalar>(
    m: Numbers<S>,
    state: Tensor<S>,
    src: &[usize],
    dst: &[usize],
    damping: S,
    eps: S,
    max_iters: usize,
    run: Run<S>,
)
    requires
        follows(m),
        call_ensures(run_until_settled::<S>, (&state, src, dst, damping, eps, max_iters), run),
    ensures
        run.deltas@.len() <= max_iters,
        run.converged ==> run.deltas@.len() > 0,
        forall|t: int|
            0 <= t < run.deltas@.len() ==> ((m.ord)(
                (m.val)(#[trigger] run.deltas@[t]),
                (m.val)(eps),
            ) == Order::Less <==> run.converged && t == run.deltas@.len() - 1),
        !run.converged ==> run.deltas@.len() == max_iters,
{
    assert forall|t: int| 0 <= t < run.deltas@.len() implies ((m.ord)(
        (m.val)(#[trigger] run.deltas@[t]),
        (m.val)(eps),
    ) == Order::Less <==> run.converged && t == run.deltas@.len() - 1) by {
        if t < run.deltas@.len() - 1 {
            assert(not_below(run.deltas@[t], eps));
        }
    }
}

// ---------- comparisons ----------

/// Labels become classes one by one.
pub proof fn labels_become_classes<S: Scalar>(m: Numbers<S>, xs: Seq<S>, out: Seq<usize>)
    requires
        follows(m),
        indices_give(xs, out),
    ensures
        out.len() == xs.len(),
        forall|i: int| 0 <= i < xs.len() ==> #[trigger] out[i] == (m.index)((m.val)(xs[i])),
{
}

/// What a report says: the largest difference between the logits and those
/// expected; in how many samples the class predicted is that of the expected
/// logits, and in how many it is that of the label; and how many samples there
/// are.
pub proof fn reports_count_agreements<S: Scalar>(
    m: Numbers<S>,
    layers: Seq<LinearView<S>>,
    inputs: TensorView<S>,
    logits: TensorView<S>,
    expected: TensorView<S>,
    labels: TensorView<S>,
    report: Report<S>,
) -> (found: (Seq<usize>, Seq<usize>))
    requires
        follows(m),
        logits.data.len() == expected.data.len(),
        report_gives(layers, inputs, logits, expected, labels, report),
    ensures
        (m.val)(report.max_diff) == Seq::new(
            logits.data.len(),
            |i: int| (m.abs)((m.sub)((m.val)(logits.data[i]), (m.val)(expected.data[i]))),
        ).fold_left(m.zero, |s: int, t: int| (m.max)(s, t)),
        report.samples == inputs.shape[0],
        predict_gives(layers, inputs, Some(found.0)),
        argmax_rows_gives(expected, found.1),
        report.argmax_agree == Seq::new(
            if found.0.len() < found.1.len() {
                found.0.len()
            } else {
                found.1.len()
            },
            |i: int| i,
        ).filter(|i: int| found.0[i] == found.1[i]).len(),
        report.correct == Seq::new(
            if found.0.len() < labels.data.len() {
                found.0.len()
            } else {
                labels.data.len()
            },
            |i: int| i,
        ).filter(|i: int| found.0[i] == (m.index)((m.val)(labels.data[i]))).len(),
{
    let (preds, wanted, classes) = choose|
        preds: Seq<usize>,
        wanted: Seq<usize>,
        classes: Seq<usize>,
    | #[trigger]
        report_via(layers, inputs, logits, expected, labels, preds, wanted, classes, report);
    largest_difference_in_numbers(
        m,
        logits.data,
        expected.data,
        logits.data.len(),
        report.max_diff,
    );
    matches_are_counted(preds, wanted);
    matches_are_counted(preds, classes);
    labels_become_classes(m, labels.data, classes);
    let n = if preds.len() < classes.len() {
        preds.len()
    } else {
        classes.len()
    };
    lemma_same_filter(
        Seq::new(n, |i: int| i),
        |i: int| preds[i] == classes[i],
        |i: int| preds[i] == (m.index)((m.val)(labels.data[i])),
    );
    (preds, wanted)
}

proof fn lemma_same_filter(s: Seq<int>, f: spec_fn(int) -> bool, g: spec_fn(int) -> bool)
    requires
        forall|i: int| 0 <= i < s.len() ==> f(#[trigger] s[i]) == g(s[i]),
    ensures
        s.filter(f) == s.filter(g),
    decreases s.len(),
{
    reveal(Seq::filter);
    if s.len() > 0 {
        assert(f(s[s.len() - 1]) == g(s[s.len() - 1]));
        assert forall|i: int| 0 <= i < s.drop_last().len() implies f(#[trigger] s.drop_last()[i])
            == g(s.drop_last()[i]) by {
            assert(f(s[i]) == g(s[i]));
        }
        lemma_same_filter(s.drop_last(), f, g);
    }
}

/// A report passes exactly where all classes agree and the largest difference is
/// below the tolerance; one that has no order with it is not.
pub proof fn reports_pass_within_the_tolerance<S: Scalar>(
    m: Numbers<S>,
    report: Report<S>,
    tolerance: S,
    b: bool,
)
    requires
        follows(m),
        call_ensures(Report::<S>::passes, (&report, tolerance), b),
    ensures
        report.argmax_agree != report.samples ==> !b,
        report.argmax_agree == report.samples ==> (b <==> (m.ord)(
            (m.val)(report.max_diff),
            (m.val)(tolerance),
        ) == Order::Less),
{
}

// ---------- answers ----------

/// What a client finds in the answer to a batch: it reads the length of the
/// body and whether the connection closes in the head, and in the body each
/// prediction between the commas of the list and then the time.
pub proof fn predictions_reach_the_client(
    request: Request,
    preds: &[usize],
    micros: u128,
    out: Vec<u8>,
) -> (read: (Seq<char>, Seq<u8>, Seq<u8>, Seq<u8>, Seq<int>))
    requires
        call_ensures(reply_with_predictions, (&request, preds, micros), out),
        out@.len() <= usize::MAX,
    ensures
        ({
            let (head, body, list, time, cuts) = read;
            &&& out@ == encode_utf8(head) + seq![13u8, 10u8, 13u8, 10u8] + body
            &&& head_request(head).content_length == body.len()
            &&& head_request(head).want_close == request.want_close
            &&& body == encode_utf8("{\"predictions\":["@) + list + encode_utf8("],\"micros\":"@)
                + time + encode_utf8("}"@)
            &&& reads_as(time, micros as int)
            &&& preds@.len() == 0 ==> list.len() == 0
            &&& preds@.len() > 0 ==> cuts.len() == preds@.len() + 1 && cuts.last() == list.len()
            &&& forall|i: int|
                0 <= i < preds@.len() ==> #[trigger] part_reads(list, cuts, preds@, i)
        }),
{
    let body = predictions_json(preds@, micros as nat);
    assert(out@.len() >= body.len());
    reveal_strlit("application/json");
    let head = answer_announces_its_body(200, "application/json"@, body, !request.want_close);
    let parts = answer_holds_list_and_time(preds@, micros as nat);
    let cuts = list_reads_back(preds@, preds@.len());
    (head, body, parts.0, parts.1, cuts)
}

/// The connection is closed after a request that asks for it, and after no
/// other.
pub proof fn connections_close_where_asked(request: Request, b: bool)
    requires
        call_ensures(closes_after, (&request,), b),
    ensures
        b == request.want_close,
{
}

/// What the errors say.
pub proof fn errors_say_what_is_wrong(e: RtwError, said: &'static str)
    requires
        call_ensures(RtwError::message, (&e,), said),
    ensures
        e == RtwError::Truncated ==> said@ == "truncated RTW file"@,
        e == RtwError::BadMagic ==> said@ == "bad RTW magic"@,
        e == RtwError::NonUtf8Name ==> said@ == "non-utf8 tensor name"@,
        e == RtwError::ShapeOverflow ==> said@ == "tensor shape too large"@,
{
}

/// Spaces are the characters with the Unicode property White_Space: the
/// controls from tab to carriage return, the space, and those beyond ASCII.
pub proof fn spaces_are_white_space(c: char)
    ensures
        is_space(c) <==> seq![
            9u32, 10, 11, 12, 13, 0x20, 0x85, 0xa0, 0x1680, 0x2000, 0x2001, 0x2002, 0x2003, 0x2004,
            0x2005, 0x2006, 0x2007, 0x2008, 0x2009, 0x200a, 0x2028, 0x2029, 0x202f, 0x205f, 0x3000,
        ].contains(c as u32),
{
    let all = seq![
        9u32, 10, 11, 12, 13, 0x20, 0x85, 0xa0, 0x1680, 0x2000, 0x2001, 0x2002, 0x2003, 0x2004,
        0x2005, 0x2006, 0x2007, 0x2008, 0x2009, 0x200a, 0x2028, 0x2029, 0x202f, 0x205f, 0x3000,
    ];
    let n = c as u32;
    if is_space(c) {
        let i: int = if n <= 13 {
            n - 9
        } else if n == 0x20 {
            5
        } else if n == 0x85 {
            6
        } else if n == 0xa0 {
            7
        } else if n == 0x1680 {
            8
        } else if n <= 0x200a {
            9 + n - 0x2000
        } else if n == 0x2028 {
            20
        } else if n == 0x2029 {
            21
        } else if n == 0x202f {
            22
        } else if n == 0x205f {
            23
        } else {
            24
        };
        assert(all[i] == n);
    }
}

} // verus!
