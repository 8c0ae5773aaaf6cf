//! How far the logits of a network agree with expected ones.
use vstd::prelude::*;

use crate::nn::{accepts_all, accepts_at};
use crate::nn::{argmax_rows, argmax_rows_gives, argmax_rows_stuck, predict_gives};
use crate::nn::{LinearView, Mlp};
use crate::scalar::{
    abs_gives, maximum_gives, minus_gives, order_gives, to_index_gives, zero_gives,
};
use crate::scalar::{Order, Scalar};
use crate::tensor::{Tensor, TensorView};

verus! {

/// The bit pattern of 1e-4, by less than which all logits are to differ.
pub const TOLERANCE_BITS: u32 = 0x38D1_B717;

/// `r` is the larger of `s` and the magnitude of `a - b`.
pub open spec fn wider_gives<S: Scalar>(s: S, a: S, b: S, r: S) -> bool {
    exists|d: S, m: S|
        {
            &&& minus_gives(a, b, d)
            &&& #[trigger] abs_gives(d, m)
            &&& #[trigger] maximum_gives(s, m, r)
        }
}

/// `r` is the largest difference among the first `n` elements of `xs` and `ys`.
pub open spec fn max_diff_gives<S: Scalar>(xs: Seq<S>, ys: Seq<S>, n: nat, r: S) -> bool
    decreases n,
{
    if n == 0 {
        zero_gives(r)
    } else {
        exists|s: S|
            max_diff_gives(xs, ys, (n - 1) as nat, s) && #[trigger] wider_gives(
                s,
                xs[n - 1],
                ys[n - 1],
                r,
            )
    }
}

/// How many of the first `n` places of `a` and `b` hold the same.
pub open spec fn matches_among(a: Seq<usize>, b: Seq<usize>, n: nat) -> nat
    decreases n,
{
    if n == 0 {
        0
    } else {
        matches_among(a, b, (n - 1) as nat) + if a[n - 1] == b[n - 1] {
            1nat
        } else {
            0nat
        }
    }
}

/// How many places two lists agree on, as far as both reach.
pub open spec fn matches_in(a: Seq<usize>, b: Seq<usize>) -> nat {
    matches_among(
        a,
        b,
        if a.len() < b.len() {
            a.len()
        } else {
            b.len()
        },
    )
}

/// `out` holds the elements of `xs` as indices.
pub open spec fn indices_give<S: Scalar>(xs: Seq<S>, out: Seq<usize>) -> bool {
    &&& out.len() == xs.len()
    &&& forall|i: int| 0 <= i < out.len() ==> to_index_gives(xs[i], #[trigger] out[i])
}

/// What a comparison found.
pub struct Report<S> {
    /// The largest difference of two logits.
    pub max_diff: S,
    /// For how many samples the greatest logits agree.
    pub argmax_agree: usize,
    /// For how many samples the prediction is the label.
    pub correct: usize,
    /// The number of samples.
    pub samples: usize,
}

/// `report` compares `logits` and the predictions of a network with the
/// `expected` logits and the labels, by way of the predictions `preds`, the
/// expected ones `wanted` and the labels as indices `classes`.
pub open spec fn report_via<S: Scalar>(
    layers: Seq<LinearView<S>>,
    inputs: TensorView<S>,
    logits: TensorView<S>,
    expected: TensorView<S>,
    labels: TensorView<S>,
    preds: Seq<usize>,
    wanted: Seq<usize>,
    classes: Seq<usize>,
    report: Report<S>,
) -> bool {
    &&& max_diff_gives(logits.data, expected.data, logits.data.len(), report.max_diff)
    &&& predict_gives(layers, inputs, Some(preds))
    &&& argmax_rows_gives(expected, wanted)
    &&& indices_give(labels.data, classes)
    &&& report.argmax_agree == matches_in(preds, wanted)
    &&& report.correct == matches_in(preds, classes)
    &&& report.samples == inputs.shape[0]
}

/// `report` compares `logits` and the predictions of a network with the
/// `expected` logits and the labels.
pub open spec fn report_gives<S: Scalar>(
    layers: Seq<LinearView<S>>,
    inputs: TensorView<S>,
    logits: TensorView<S>,
    expected: TensorView<S>,
    labels: TensorView<S>,
    report: Report<S>,
) -> bool {
    exists|preds: Seq<usize>, wanted: Seq<usize>, classes: Seq<usize>| #[trigger]
        report_via(layers, inputs, logits, expected, labels, preds, wanted, classes, report)
}

/// The largest difference of two tensors of one shape, element by element.
pub fn max_diff<S: Scalar>(a: &Tensor<S>, b: &Tensor<S>) -> (r: S)
    requires
        a@.dense(),
        b@.dense(),
        a@.shape == b@.shape,
    ensures
        max_diff_gives(a@.data, b@.data, a@.data.len(), r),
{
    let mut r: S = S::zero();
    let mut i: usize = 0;
    while i < a.data.len()
        invariant
            i <= a@.data.len(),
            a@.data.len() == b@.data.len(),
            max_diff_gives(a@.data, b@.data, i as nat, r),
        decreases a@.data.len() - i,
    {
        let ghost s = r;
        let d: S = a.data[i].minus(b.data[i]);
        let m: S = d.abs();
        r = r.maximum(m);
        proof {
            let n = (i + 1) as nat;
            assert(abs_gives(d, m) && maximum_gives(s, m, r));
            assert(wider_gives(s, a@.data[n - 1], b@.data[n - 1], r));
            assert(max_diff_gives(a@.data, b@.data, (n - 1) as nat, s));
        }
        i = i + 1;
    }
    r
}

/// How many places two lists agree on, as far as both reach.
pub fn count_matches(a: &[usize], b: &[usize]) -> (count: usize)
    ensures
        count == matches_in(a@, b@),
{
    let mut count: usize = 0;
    let mut i: usize = 0;
    while i < a.len() && i < b.len()
        invariant
            i <= a@.len(),
            i <= b@.len(),
            count <= i,
            count == matches_among(a@, b@, i as nat),
        decreases a@.len() - i,
    {
        if a[i] == b[i] {
            count = count + 1;
        }
        proof {
            let n = (i + 1) as nat;
            assert((n - 1) as nat == i as nat);
        }
        i = i + 1;
    }
    count
}

/// The elements of a tensor as indices.
pub fn indices<S: Scalar>(t: &Tensor<S>) -> (out: Vec<usize>)
    ensures
        indices_give(t@.data, out@),
{
    let mut out: Vec<usize> = Vec::with_capacity(t.data.len());
    let mut i: usize = 0;
    while i < t.data.len()
        invariant
            i <= t@.data.len(),
            out@.len() == i,
            forall|p: int| 0 <= p < i ==> to_index_gives(t@.data[p], #[trigger] out@[p]),
        decreases t@.data.len() - i,
    {
        out.push(t.data[i].to_index());
        i = i + 1;
    }
    out
}

/// Compares `logits` and the predictions of a network for the inputs with the
/// `expected` logits and the labels; `None` where two logits of one sample have
/// no order.
pub fn compare<S: Scalar>(
    mlp: &Mlp<S>,
    inputs: &Tensor<S>,
    logits: &Tensor<S>,
    expected: &Tensor<S>,
    labels: &Tensor<S>,
) -> (report: Option<Report<S>>)
    requires
        mlp@.len() > 0,
        inputs@.dense(),
        accepts_all(mlp@, inputs@.shape),
        mlp@.last().weight.shape[1] > 0,
        logits@.dense(),
        expected@.dense(),
        logits@.shape == expected@.shape,
        expected@.shape.len() == 2,
        expected@.shape[1] > 0,
    ensures
        match report {
            Some(r) => report_gives(mlp@, inputs@, logits@, expected@, labels@, r),
            None => predict_gives(mlp@, inputs@, None) || argmax_rows_stuck(expected@),
        },
{
    let max_diff: S = max_diff(logits, expected);
    let preds: Vec<usize> = match mlp.try_predict(inputs) {
        Some(p) => p,
        None => {
            return None;
        },
    };
    let wanted: Vec<usize> = match argmax_rows(expected) {
        Some(p) => p,
        None => {
            return None;
        },
    };
    let classes: Vec<usize> = indices(labels);
    proof {
        assert(accepts_at(mlp@, inputs@.shape, 0));
    }
    let report = Report {
        max_diff,
        argmax_agree: count_matches(preds.as_slice(), wanted.as_slice()),
        correct: count_matches(preds.as_slice(), classes.as_slice()),
        samples: inputs.shape[0],
    };
    assert(report_via(
        mlp@,
        inputs@,
        logits@,
        expected@,
        labels@,
        preds@,
        wanted@,
        classes@,
        report,
    ));
    Some(report)
}

impl<S: Scalar> Report<S> {
    /// Whether all logits differ by less than the tolerance and all greatest
    /// logits agree.
    pub fn passes(&self, tolerance: S) -> (b: bool)
        ensures
            b ==> self.argmax_agree == self.samples && order_gives(
                self.max_diff,
                tolerance,
                Order::Less,
            ),
            !b ==> self.argmax_agree != self.samples || exists|o: Order|
                o != Order::Less && #[trigger] order_gives(self.max_diff, tolerance, o),
    {
        let o: Order = self.max_diff.order(tolerance);
        assert(order_gives(self.max_diff, tolerance, o));
        o == Order::Less && self.argmax_agree == self.samples
    }
}

/// Two lists of one length agree on no more places than they have, and on all
/// of them exactly where they are the same.
pub proof fn full_agreement(a: Seq<usize>, b: Seq<usize>)
    requires
        a.len() == b.len(),
    ensures
        matches_in(a, b) <= a.len(),
        matches_in(a, b) == a.len() <==> a == b,
{
    lemma_matches_bound(a, b, a.len());
    if matches_in(a, b) == a.len() {
        assert(a =~= b);
    }
}

proof fn lemma_matches_bound(a: Seq<usize>, b: Seq<usize>, n: nat)
    requires
        n <= a.len(),
        n <= b.len(),
    ensures
        matches_among(a, b, n) <= n,
        matches_among(a, b, n) == n <==> (forall|i: int| 0 <= i < n ==> a[i] == b[i]),
    decreases n,
{
    if n > 0 {
        lemma_matches_bound(a, b, (n - 1) as nat);
        if matches_among(a, b, n) != n && a[n - 1] == b[n - 1] {
            let i = choose|i: int| 0 <= i < n - 1 && a[i] != b[i];
            assert(a[i] != b[i]);
        }
    }
}

} // verus!
