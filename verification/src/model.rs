//! The network of a weight file.
use vstd::prelude::*;

use crate::nn::{Linear, LinearView, Mlp};
use crate::scalar::Scalar;
use crate::tensor::{Tensor, TensorView};
use crate::weights::Weights;

verus! {

/// The shapes of a weight and a bias match: `[in, out]` and `[out]`.
pub open spec fn shapes_match<S>(weight: TensorView<S>, bias: TensorView<S>) -> bool {
    &&& weight.shape.len() == 2
    &&& bias.shape.len() >= 1
    &&& bias.shape[0] == weight.shape[1]
}

/// The layer of a weight and a bias by their names, where both are there and
/// their shapes match.
pub open spec fn layer_of<S>(
    m: Map<Seq<char>, Tensor<S>>,
    weight: Seq<char>,
    bias: Seq<char>,
) -> Option<LinearView<S>> {
    if m.contains_key(weight) && m.contains_key(bias) && shapes_match(m[weight]@, m[bias]@) {
        Some(LinearView { weight: m[weight]@, bias: m[bias]@ })
    } else {
        None
    }
}

fn layer<S: Scalar>(w: &Weights<S>, weight: &str, bias: &str) -> (layer: Option<Linear<S>>)
    ensures
        match layer {
            Some(l) => layer_of(w@, weight@, bias@) == Some(l@),
            None => layer_of(w@, weight@, bias@) is None,
        },
{
    match (w.get(weight), w.get(bias)) {
        (Some(a), Some(b)) => {
            if a.shape.len() == 2 && b.shape.len() >= 1 && b.shape[0] == a.shape[1] {
                Some(Linear::from_weights(a.clone(), b.clone()))
            } else {
                None
            }
        },
        _ => None,
    }
}

/// The network of the layers `fc1` and `fc2`; `None` exactly where a tensor is
/// missing or the shapes of a layer do not match.
pub fn two_layer_mlp<S: Scalar>(w: &Weights<S>) -> (mlp: Option<Mlp<S>>)
    ensures
        match mlp {
            Some(net) => {
                &&& net@.len() == 2
                &&& layer_of(w@, "fc1.weight"@, "fc1.bias"@) == Some(net@[0])
                &&& layer_of(w@, "fc2.weight"@, "fc2.bias"@) == Some(net@[1])
            },
            None => {
                ||| layer_of(w@, "fc1.weight"@, "fc1.bias"@) is None
                ||| layer_of(w@, "fc2.weight"@, "fc2.bias"@) is None
            },
        },
{
    match (layer(w, "fc1.weight", "fc1.bias"), layer(w, "fc2.weight", "fc2.bias")) {
        (Some(first), Some(second)) => Some(Mlp { layers: vec![first, second] }),
        _ => None,
    }
}

} // verus!
