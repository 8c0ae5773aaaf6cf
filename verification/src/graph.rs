//! Message passing with adaptive halting: gather, aggregate, damp, and stop
//! once the state hardly moves.
use vstd::prelude::*;

use crate::reduce::distance_gives;
use crate::scalar::{
    from_u64_gives, minus_gives, order_gives, plus_gives, times_gives, zero_gives,
};
use crate::scalar::{Order, Scalar};
use crate::shape::{lemma_fits_2, lemma_product_2};
use crate::tensor::{gathered, scatter_gives};
use crate::tensor::{Tensor, TensorView};

verus! {

/// `r` is `damping * new + keep * old`.
pub open spec fn blend_elem_gives<S: Scalar>(damping: S, keep: S, new: S, old_elem: S, r: S) -> bool {
    exists|a: S, b: S|
        {
            &&& #[trigger] times_gives(damping, new, a)
            &&& #[trigger] times_gives(keep, old_elem, b)
            &&& plus_gives(a, b, r)
        }
}

/// `keep` is `1 - damping`.
pub open spec fn complement_gives<S: Scalar>(damping: S, keep: S) -> bool {
    exists|one: S| from_u64_gives(1, one) && #[trigger] minus_gives(one, damping, keep)
}

/// `r` is the damped update of `state` towards `aggregated`.
pub open spec fn blend_gives<S: Scalar>(
    damping: S,
    aggregated: TensorView<S>,
    state: TensorView<S>,
    keep: S,
    r: TensorView<S>,
) -> bool {
    &&& complement_gives(damping, keep)
    &&& r.wf()
    &&& r.shape == state.shape
    &&& forall|i: int|
        0 <= i < state.data.len() ==> blend_elem_gives(
            damping,
            keep,
            aggregated.data[i],
            state.data[i],
            #[trigger] r.data[i],
        )
}

/// `r` comes from `state` by one round of messages over the edges from `src`
/// to `dst`.
pub open spec fn round_gives<S: Scalar>(
    src: Seq<usize>,
    dst: Seq<usize>,
    damping: S,
    state: TensorView<S>,
    r: TensorView<S>,
) -> bool {
    exists|edges: TensorView<S>, aggregated: TensorView<S>, keep: S|
        {
            &&& #[trigger] gathered(state, src, edges)
            &&& scatter_gives(edges, dst, state.shape[0] as nat, aggregated)
            &&& #[trigger] blend_gives(damping, aggregated, state, keep, r)
        }
}

/// The edges join nodes of the state, and the messages are addressable.
pub open spec fn edges_fit<S>(src: Seq<usize>, dst: Seq<usize>, state: TensorView<S>) -> bool {
    &&& state.matrix()
    &&& src.len() == dst.len()
    &&& src.len() * state.shape[1] <= usize::MAX
    &&& forall|e: int| 0 <= e < src.len() ==> #[trigger] src[e] < state.shape[0]
    &&& forall|e: int| 0 <= e < dst.len() ==> #[trigger] dst[e] < state.shape[0]
}

/// `states` are the successive states of a run and `deltas` how far each
/// moved.
pub open spec fn run_gives<S: Scalar>(
    src: Seq<usize>,
    dst: Seq<usize>,
    damping: S,
    states: Seq<TensorView<S>>,
    deltas: Seq<S>,
) -> bool {
    &&& states.len() == deltas.len() + 1
    &&& forall|t: int|
        0 <= t < deltas.len() ==> #[trigger] round_gives(
            src,
            dst,
            damping,
            states[t],
            states[t + 1],
        )
    &&& forall|t: int|
        0 <= t < deltas.len() ==> distance_gives(
            states[t + 1].data,
            states[t].data,
            #[trigger] deltas[t],
        )
}

/// A run from `first` that moves by `deltas` ends at `last`.
pub open spec fn leads_to<S: Scalar>(
    src: Seq<usize>,
    dst: Seq<usize>,
    damping: S,
    first: TensorView<S>,
    deltas: Seq<S>,
    last: TensorView<S>,
) -> bool {
    exists|states: Seq<TensorView<S>>|
        {
            &&& #[trigger] run_gives(src, dst, damping, states, deltas)
            &&& states[0] == first
            &&& states.last() == last
        }
}

/// `a` does not compare as less than `b`.
pub open spec fn not_below<S: Scalar>(a: S, b: S) -> bool {
    exists|o: Order| o != Order::Less && #[trigger] order_gives(a, b, o)
}

/// The run went on while the state moved by `eps` or more, within the budget,
/// and stopped at the first smaller move.
pub open spec fn halted<S: Scalar>(eps: S, deltas: Seq<S>, max_iters: nat) -> bool {
    &&& deltas.len() <= max_iters
    &&& forall|t: int|
        0 <= t < deltas.len() - 1 ==> not_below(#[trigger] deltas[t], eps)
    &&& deltas.len() < max_iters ==> deltas.len() > 0 && order_gives(
        deltas.last(),
        eps,
        Order::Less,
    )
}

/// A run that ended: its last state, how far each round moved, and whether the
/// last round moved by less than the threshold.
pub struct Run<S> {
    pub state: Tensor<S>,
    pub deltas: Vec<S>,
    pub converged: bool,
}

/// The edges of a ring: from each node to the next, and from the last to the
/// first.
pub fn ring(num_nodes: usize) -> (edges: (Vec<usize>, Vec<usize>))
    ensures
        edges.0@.len() == num_nodes,
        edges.1@.len() == num_nodes,
        forall|i: int| 0 <= i < num_nodes ==> #[trigger] edges.0@[i] == i,
        forall|i: int|
            0 <= i < num_nodes ==> #[trigger] edges.1@[i] == if i + 1 < num_nodes {
                i + 1
            } else {
                0
            },
{
    let mut src: Vec<usize> = Vec::with_capacity(num_nodes);
    let mut dst: Vec<usize> = Vec::with_capacity(num_nodes);
    let mut i: usize = 0;
    while i < num_nodes
        invariant
            i <= num_nodes,
            src@.len() == i,
            dst@.len() == i,
            forall|p: int| 0 <= p < i ==> #[trigger] src@[p] == p,
            forall|p: int|
                0 <= p < i ==> #[trigger] dst@[p] == if p + 1 < num_nodes {
                    p + 1
                } else {
                    0
                },
        decreases num_nodes - i,
    {
        src.push(i);
        dst.push(
            if i + 1 < num_nodes {
                i + 1
            } else {
                0
            },
        );
        i = i + 1;
    }
    (src, dst)
}

/// A state in which the features of node 0 are one and all others zero.
pub fn hot_node<S: Scalar>(num_nodes: usize, feat: usize) -> (state: Tensor<S>)
    requires
        num_nodes > 0,
        num_nodes * feat <= usize::MAX,
    ensures
        state@.wf(),
        state@.shape == seq![num_nodes, feat],
        forall|i: int| 0 <= i < feat ==> from_u64_gives(1, #[trigger] state@.data[i]),
        forall|i: int| feat <= i < state@.data.len() ==> zero_gives(#[trigger] state@.data[i]),
{
    let dims: [usize; 2] = [num_nodes, feat];
    proof {
        assert(dims@ =~= seq![num_nodes, feat]);
        lemma_fits_2(dims@);
        lemma_product_2(dims@);
        assert(feat <= num_nodes * feat) by (nonlinear_arith)
            requires
                num_nodes > 0,
        ;
    }
    let mut state: Tensor<S> = Tensor::zeros(dims.as_slice());
    let mut f: usize = 0;
    while f < feat
        invariant
            f <= feat,
            feat <= state@.data.len(),
            state@.shape == dims@,
            state@.wf(),
            forall|i: int| 0 <= i < f ==> from_u64_gives(1, #[trigger] state@.data[i]),
            forall|i: int| f <= i < state@.data.len() ==> zero_gives(#[trigger] state@.data[i]),
        decreases feat - f,
    {
        let one: S = S::from_u64(1);
        state.data[f] = one;
        f = f + 1;
    }
    state
}

/// One round of messages, damped.
pub fn message_round<S: Scalar>(
    state: &Tensor<S>,
    src: &[usize],
    dst: &[usize],
    damping: S,
) -> (next: Tensor<S>)
    requires
        edges_fit(src@, dst@, state@),
    ensures
        round_gives(src@, dst@, damping, state@, next@),
        next@.wf(),
        next@.shape == state@.shape,
{
    let nodes: usize = state.shape[0];
    proof {
        lemma_product_2(state@.shape);
        assert(state.data@.len() == state.data.len());
    }
    let edges: Tensor<S> = state.gather_rows(src);
    let aggregated: Tensor<S> = edges.scatter_add_rows(dst, nodes);
    proof {
        lemma_product_2(aggregated@.shape);
    }
    let one: S = S::from_u64(1);
    let keep: S = one.minus(damping);
    assert(minus_gives(one, damping, keep));
    let n: usize = state.data.len();
    let mut data: Vec<S> = Vec::with_capacity(n);
    let mut i: usize = 0;
    while i < n
        invariant
            i <= n,
            n == state@.data.len(),
            n == aggregated@.data.len(),
            data@.len() == i,
            forall|p: int|
                0 <= p < i ==> blend_elem_gives(
                    damping,
                    keep,
                    aggregated@.data[p],
                    state@.data[p],
                    #[trigger] data@[p],
                ),
        decreases n - i,
    {
        let a: S = damping.times(aggregated.data[i]);
        let b: S = keep.times(state.data[i]);
        let v: S = a.plus(b);
        assert(times_gives(damping, aggregated@.data[i as int], a));
        assert(times_gives(keep, state@.data[i as int], b));
        data.push(v);
        i = i + 1;
    }
    let next: Tensor<S> = Tensor::from_vec(data, state.shape.as_slice());
    assert(gathered(state@, src@, edges@));
    assert(blend_gives(damping, aggregated@, state@, keep, next@));
    next
}

/// Rounds of messages until a round moves the state by less than `eps`, and no
/// more than `max_iters` of them.
pub fn run_until_settled<S: Scalar>(
    state: &Tensor<S>,
    src: &[usize],
    dst: &[usize],
    damping: S,
    eps: S,
    max_iters: usize,
) -> (run: Run<S>)
    requires
        edges_fit(src@, dst@, state@),
    ensures
        leads_to(src@, dst@, damping, state@, run.deltas@, run.state@),
        halted(eps, run.deltas@, max_iters as nat),
        run.converged ==> run.deltas@.len() > 0 && order_gives(
            run.deltas@.last(),
            eps,
            Order::Less,
        ),
        !run.converged ==> run.deltas@.len() == max_iters && forall|t: int|
            0 <= t < run.deltas@.len() ==> not_below(#[trigger] run.deltas@[t], eps),
{
    let mut current: Tensor<S> = state.clone();
    let mut deltas: Vec<S> = Vec::new();
    let ghost mut states: Seq<TensorView<S>> = seq![state@];
    while deltas.len() < max_iters
        invariant
            deltas@.len() <= max_iters,
            edges_fit(src@, dst@, current@),
            run_gives(src@, dst@, damping, states, deltas@),
            states[0] == state@,
            states.last() == current@,
            forall|t: int|
                0 <= t < deltas@.len() ==> not_below(#[trigger] deltas@[t], eps),
        decreases max_iters - deltas@.len(),
    {
        let next: Tensor<S> = message_round(&current, src, dst, damping);
        let delta: S = next.l2_diff(&current);
        let o: Order = delta.order(eps);
        let ghost before = deltas@;
        let ghost seen = states;
        deltas.push(delta);
        proof {
            states = states.push(next@);
            let n = before.len() as int;
            assert forall|t: int| 0 <= t < deltas@.len() implies #[trigger] round_gives(
                src@,
                dst@,
                damping,
                states[t],
                states[t + 1],
            ) by {
                if t < n {
                    assert(round_gives(src@, dst@, damping, seen[t], seen[t + 1]));
                }
            }
            assert forall|t: int| 0 <= t < deltas@.len() implies distance_gives(
                states[t + 1].data,
                states[t].data,
                #[trigger] deltas@[t],
            ) by {
                if t < n {
                    assert(distance_gives(seen[t + 1].data, seen[t].data, before[t]));
                }
            }
            assert forall|t: int| 0 <= t < n implies not_below(#[trigger] deltas@[t], eps) by {
                assert(deltas@[t] == before[t]);
            }
            assert(order_gives(deltas@[n], eps, o));
            assert(run_gives(src@, dst@, damping, states, deltas@));
        }
        current = next;
        if o == Order::Less {
            assert(leads_to(src@, dst@, damping, state@, deltas@, current@));
            return Run { state: current, deltas, converged: true };
        }
    }
    assert(leads_to(src@, dst@, damping, state@, deltas@, current@));
    Run { state: current, deltas, converged: false }
}

} // verus!
