use hypertorch::agreement::{
    compare, count_matches, indices, max_diff, Report, TOLERANCE_BITS,
};
use hypertorch::graph::{hot_node, message_round, ring, run_until_settled};
use hypertorch::http::{decode_batch, reply_to, Reply, Request, Route, IN_FEATURES};
use hypertorch::model::two_layer_mlp;
use hypertorch::nn::{argmax_rows, Linear, Mlp};
use hypertorch::random::xorshift_uniform;
use hypertorch::reduce::{peak, sum};
use hypertorch::rtw::{read_u32, read_u64, RtwError};
use hypertorch::scalar::{Order, Scalar};
use hypertorch::shape::{
    checked_product, checked_strides, copied, row_major_strides, same_shape, shape_product,
};
use hypertorch::weights::parse_rtw;
use hypertorch::Tensor;

/// A 32-bit float as a tensor element.
#[derive(Debug, Clone, Copy, PartialEq)]
struct F(f32);

impl Scalar for F {
    fn zero() -> Self {
        F(0.0)
    }
    fn neg_infinity() -> Self {
        F(f32::NEG_INFINITY)
    }
    fn pi() -> Self {
        F(std::f32::consts::PI)
    }
    fn from_u64(n: u64) -> Self {
        F(n as f32)
    }
    fn from_bits(bits: u32) -> Self {
        F(f32::from_bits(bits))
    }
    fn plus(self, other: Self) -> Self {
        F(self.0 + other.0)
    }
    fn minus(self, other: Self) -> Self {
        F(self.0 - other.0)
    }
    fn times(self, other: Self) -> Self {
        F(self.0 * other.0)
    }
    fn over(self, other: Self) -> Self {
        F(self.0 / other.0)
    }
    fn maximum(self, other: Self) -> Self {
        F(self.0.max(other.0))
    }
    fn negate(self) -> Self {
        F(-self.0)
    }
    fn exp(self) -> Self {
        F(self.0.exp())
    }
    fn ln(self) -> Self {
        F(self.0.ln())
    }
    fn sqrt(self) -> Self {
        F(self.0.sqrt())
    }
    fn sin(self) -> Self {
        F(self.0.sin())
    }
    fn cos(self) -> Self {
        F(self.0.cos())
    }
    fn abs(self) -> Self {
        F(self.0.abs())
    }
    fn to_index(self) -> usize {
        self.0 as usize
    }
    fn is_zero(self) -> bool {
        self.0 == 0.0
    }
    fn order(self, other: Self) -> Order {
        match self.0.partial_cmp(&other.0) {
            Some(std::cmp::Ordering::Less) => Order::Less,
            Some(std::cmp::Ordering::Equal) => Order::Equal,
            Some(std::cmp::Ordering::Greater) => Order::Greater,
            None => Order::Unordered,
        }
    }
}

fn tensor(data: Vec<f32>, shape: &[usize]) -> Tensor<F> {
    Tensor::from_vec(data.into_iter().map(F).collect(), shape)
}

fn values(t: &Tensor<F>) -> Vec<f32> {
    t.data.iter().map(|x| x.0).collect()
}

fn encode(tensors: &[(&str, &Tensor<F>)]) -> Vec<u8> {
    let mut buf = Vec::new();
    buf.extend_from_slice(b"RTWv1\0");
    buf.extend_from_slice(&(tensors.len() as u32).to_le_bytes());
    for (name, t) in tensors {
        buf.extend_from_slice(&(name.len() as u32).to_le_bytes());
        buf.extend_from_slice(name.as_bytes());
        buf.extend_from_slice(&(t.shape.len() as u32).to_le_bytes());
        for &d in &t.shape {
            buf.extend_from_slice(&(d as u64).to_le_bytes());
        }
        for &v in &t.data {
            buf.extend_from_slice(&v.0.to_le_bytes());
        }
    }
    buf
}

#[test]
fn matmul_known_values() {
    // [[1,2],[3,4]] x [[5,6],[7,8]] = [[19,22],[43,50]]
    let a = tensor(vec![1., 2., 3., 4.], &[2, 2]);
    let b = tensor(vec![5., 6., 7., 8.], &[2, 2]);
    let c = a.matmul(&b);
    assert_eq!(values(&c), vec![19., 22., 43., 50.]);
}

#[test]
fn softmax_rows_sum_to_one() {
    let t = tensor(vec![1., 2., 3., 1000., 1001., 1002.], &[2, 3]);
    let s = t.softmax_lastdim();
    let data = values(&s);
    for r in 0..2 {
        let total: f32 = data[r * 3..(r + 1) * 3].iter().sum();
        assert!((total - 1.0).abs() < 1e-5, "row {} sums to {}", r, total);
    }
    // large-value row must not produce NaN (stability check)
    assert!(data.iter().all(|x| x.is_finite()));
}

#[test]
fn bias_broadcast_add() {
    let x = tensor(vec![1., 2., 3., 4.], &[2, 2]);
    let b = tensor(vec![10., 20.], &[2]);
    let y = x.add(&b);
    assert_eq!(values(&y), vec![11., 22., 13., 24.]);
}

#[test]
fn gather_then_scatter_roundtrip() {
    // 3 nodes, feat=2; edges: 0->1, 1->2, 2->0, 0->2
    let nodes = tensor(vec![1., 1., 2., 2., 3., 3.], &[3, 2]);
    let src = vec![0usize, 1, 2, 0];
    let dst = vec![1usize, 2, 0, 2];
    let msgs = nodes.gather_rows(&src); // messages = source features
    let agg = msgs.scatter_add_rows(&dst, 3);
    // node0 receives from node2: [3,3]
    // node1 receives from node0: [1,1]
    // node2 receives from node1 and node0: [2+1, 2+1] = [3,3]
    assert_eq!(values(&agg), vec![3., 3., 1., 1., 3., 3.]);
}

#[test]
fn l2_diff_convergence_signal() {
    let a = tensor(vec![1., 2., 3.], &[3]);
    let b = tensor(vec![1., 2., 3.], &[3]);
    assert_eq!(a.l2_diff(&b).0, 0.0);
    let c = tensor(vec![1., 2., 4.], &[3]);
    assert!((a.l2_diff(&c).0 - 1.0).abs() < 1e-6);
}

#[test]
fn mlp_shapes_flow() {
    // batch of 4, MNIST-shaped: 784 -> 128 -> 10
    let mlp: Mlp<F> = Mlp::new(&[784, 128, 10], 42);
    let x = Tensor::randn(&[4, 784], 7);
    assert!(mlp.accepts_batch(&x));
    let logits = mlp.forward(&x);
    assert_eq!(logits.shape, vec![4, 10]);
    assert!(values(&logits).iter().all(|v| v.is_finite()));
    let preds = mlp.predict(&x);
    assert_eq!(preds.len(), 4);
    assert!(preds.iter().all(|&p| p < 10));
}

#[test]
fn linear_matches_manual_computation() {
    // y = xW + b, tiny known case
    let w = tensor(vec![1., 2., 3., 4.], &[2, 2]);
    let b = tensor(vec![0.5, -0.5], &[2]);
    let layer = Linear::from_weights(w, b);
    let x = tensor(vec![1., 1.], &[1, 2]);
    let y = layer.forward(&x);
    // [1,1] x [[1,2],[3,4]] = [4,6]; +bias = [4.5, 5.5]
    assert_eq!(values(&y), vec![4.5, 5.5]);
}

#[test]
fn roundtrip() {
    let w = tensor(vec![1.5, -2.0, 3.25, 0.0], &[2, 2]);
    let b = tensor(vec![0.1, 0.2], &[2]);
    let buf = encode(&[("layer0.weight", &w), ("layer0.bias", &b)]);
    let m = parse_rtw::<F>(&buf).ok().unwrap();
    assert_eq!(values(m.get("layer0.weight").unwrap()), values(&w));
    assert_eq!(m.get("layer0.weight").unwrap().shape, vec![2, 2]);
    assert_eq!(values(m.get("layer0.bias").unwrap()), values(&b));
}

#[test]
fn rejects_bad_magic() {
    assert!(parse_rtw::<F>(b"NOTRTW\0\0\0\0").is_err());
}

// ---------- shapes ----------

#[test]
fn strides_are_row_major() {
    assert_eq!(row_major_strides(&[2, 3, 4]), vec![12, 4, 1]);
    assert_eq!(row_major_strides(&[5]), vec![1]);
    assert_eq!(row_major_strides(&[]), Vec::<usize>::new());
    assert_eq!(shape_product(&[2, 3, 4]), 24);
    assert_eq!(shape_product(&[]), 1);
}

#[test]
fn strides_number_the_elements() {
    let shape = [2usize, 3, 1, 4];
    let strides = row_major_strides(&shape);
    let mut place = 0;
    for a in 0..2 {
        for b in 0..3 {
            for c in 0..1 {
                for d in 0..4 {
                    let at = a * strides[0] + b * strides[1] + c * strides[2] + d * strides[3];
                    assert_eq!(at, place);
                    place += 1;
                }
            }
        }
    }
    assert_eq!(place, shape_product(&shape));
}

#[test]
fn sizes_are_checked() {
    let big = 1usize << 40;
    assert_eq!(checked_product(&[2, 3]), Some(6));
    assert_eq!(checked_product(&[big, big]), None);
    assert_eq!(checked_product(&[big, big, 0]), None);
    assert_eq!(checked_product(&[0, big, big]), Some(0));
    assert_eq!(checked_strides(&[2, 3]), Some(vec![3, 1]));
    assert_eq!(checked_strides(&[0, big, big]), None);
    assert_eq!(checked_strides(&[big, big, 0]), Some(vec![0, 0, 1]));
    assert!(same_shape(&[1, 2], &[1, 2]));
    assert!(!same_shape(&[1, 2], &[2, 1]));
    assert!(!same_shape(&[1, 2], &[1, 2, 3]));
    assert_eq!(copied(&[3, 1, 2]), vec![3, 1, 2]);
}

// ---------- tensors ----------

#[test]
fn constructors_fill_the_shape() {
    let z: Tensor<F> = Tensor::zeros(&[2, 3]);
    assert_eq!(values(&z), vec![0.0; 6]);
    assert_eq!(z.shape, vec![2, 3]);
    assert_eq!(z.strides, vec![3, 1]);
    assert_eq!(z.numel(), 6);
    assert_eq!(z.ndim(), 2);
    assert!(z.is_dense());
    let mut short = z.clone();
    short.data.pop();
    assert!(!short.is_dense());
    assert_eq!(z.data.len(), 6);
}

#[test]
fn reshape_goes_there_and_back() {
    let t = tensor(vec![1., 2., 3., 4., 5., 6.], &[2, 3]);
    let flat = t.reshape(&[6]);
    assert_eq!(flat.shape, vec![6]);
    assert_eq!(flat.strides, vec![1]);
    let back = flat.reshape(&[2, 3]);
    assert_eq!(back.data, t.data);
    assert_eq!(back.shape, t.shape);
    assert_eq!(back.strides, t.strides);
}

#[test]
fn at2_follows_the_strides() {
    let t = tensor(vec![1., 2., 3., 4., 5., 6.], &[2, 3]);
    assert_eq!(t.at2(0, 2).0, 3.0);
    assert_eq!(t.at2(1, 0).0, 4.0);
    // a transposed view by hand
    let mut v = t.clone();
    v.shape = vec![3, 2];
    v.strides = vec![1, 3];
    assert_eq!(v.at2(2, 0).0, 3.0);
    assert_eq!(v.at2(0, 1).0, 4.0);
}

#[test]
fn add_of_one_shape() {
    let a = tensor(vec![1., 2., 3.], &[3]);
    let b = tensor(vec![10., 20., 30.], &[3]);
    assert_eq!(values(&a.add(&b)), vec![11., 22., 33.]);
}

#[test]
fn relu_clips_negatives() {
    let t = tensor(vec![-1.5, 0.0, 2.5], &[3]);
    assert_eq!(values(&t.relu()), vec![0.0, 0.0, 2.5]);
}

#[test]
fn softmax_exact_values() {
    let t = tensor(vec![0., 0., 5., 5., 5., 5.], &[3, 2]);
    let s = t.softmax_lastdim();
    assert_eq!(values(&s), vec![0.5; 6]);
    assert_eq!(s.shape, vec![3, 2]);
    let u = tensor(vec![1.0, 2.0], &[2]).softmax_lastdim();
    let (a, b) = ((-1.0f32).exp(), 0.0f32.exp());
    assert_eq!(values(&u), vec![a / (a + b), b / (a + b)]);
}

#[test]
fn matmul_of_unequal_sides() {
    // [1,2,3] x [[1,0],[0,1],[1,1]] = [4,5]
    let a = tensor(vec![1., 2., 3.], &[1, 3]);
    let b = tensor(vec![1., 0., 0., 1., 1., 1.], &[3, 2]);
    let c = a.matmul(&b);
    assert_eq!(c.shape, vec![1, 2]);
    assert_eq!(values(&c), vec![4., 5.]);
}

#[test]
fn matmul_leaves_out_terms_with_a_zero() {
    let a = tensor(vec![0., 1.], &[1, 2]);
    let b = tensor(vec![f32::INFINITY, 7.], &[2, 1]);
    assert_eq!(values(&a.matmul(&b)), vec![7.]);
}

#[test]
fn matmul_over_nothing_is_zero() {
    let a = tensor(vec![], &[2, 0]);
    let b = tensor(vec![], &[0, 2]);
    assert_eq!(values(&a.matmul(&b)), vec![0.0; 4]);
}

#[test]
fn gather_laws_on_values() {
    let t = tensor(vec![1., 2., 3., 4., 5., 6.], &[3, 2]);
    assert_eq!(t.gather_rows(&[0, 1, 2]).data, t.data);
    let once = t.gather_rows(&[2, 0]);
    assert_eq!(values(&once), vec![5., 6., 1., 2.]);
    let twice = once.gather_rows(&[1, 1, 0]);
    assert_eq!(twice.data, t.gather_rows(&[0, 0, 2]).data);
    assert_eq!(t.gather_rows(&[]).shape, vec![0, 2]);
}

#[test]
fn scatter_leaves_silent_nodes_zero() {
    let t = tensor(vec![1., 2., 3., 4.], &[2, 2]);
    let r = t.scatter_add_rows(&[1, 1], 3);
    assert_eq!(r.shape, vec![3, 2]);
    assert_eq!(values(&r), vec![0., 0., 4., 6., 0., 0.]);
}

#[test]
fn sums_and_peaks() {
    assert_eq!(sum(&[F(1.0), F(2.5)]).0, 3.5);
    assert_eq!(sum::<F>(&[]).0, 0.0);
    assert_eq!(peak(&[F(9.0), F(1.0), F(3.0), F(2.0)], 1, 4).0, 3.0);
    assert_eq!(peak(&[F(9.0)], 1, 1).0, f32::NEG_INFINITY);
}

#[test]
fn distance_of_known_points() {
    let a = tensor(vec![0., 0.], &[2]);
    let b = tensor(vec![3., 4.], &[2]);
    assert_eq!(a.l2_diff(&b).0, 5.0);
}

// ---------- identities ----------

#[test]
fn softmax_ignores_shifts() {
    let a = tensor(vec![1., 2., 3.], &[1, 3]).softmax_lastdim();
    let b = tensor(vec![1000., 1001., 1002.], &[1, 3]).softmax_lastdim();
    assert_eq!(a.data, b.data);
}

#[test]
fn softmax_stays_in_range() {
    let big = f32::MAX;
    let rows = vec![big, -big, 0., 1e30, -big, -big, -big, -big, 0., -200., 88., 1e-40];
    let s = tensor(rows, &[3, 4]).softmax_lastdim();
    assert!(values(&s).iter().all(|v| (0.0..=1.0).contains(v)));
    assert_eq!(&values(&s)[..4], &[1., 0., 0., 0.]);
    assert_eq!(&values(&s)[4..8], &[0.25; 4]);
}

#[test]
fn gather_commutes_with_matmul() {
    let a: Tensor<F> = Tensor::randn(&[4, 3], 1);
    let b: Tensor<F> = Tensor::randn(&[3, 5], 2);
    let idx = [2usize, 0, 2];
    assert_eq!(a.gather_rows(&idx).matmul(&b).data, a.matmul(&b).gather_rows(&idx).data);
}

#[test]
fn identity_changes_nothing() {
    let eye = |n: usize| {
        let mut e: Tensor<F> = Tensor::zeros(&[n, n]);
        for i in 0..n {
            e.data[i * n + i] = F(1.0);
        }
        e
    };
    let a = tensor(vec![1., 0., -2., 3., -0.0, 5.], &[2, 3]);
    assert_eq!(a.matmul(&eye(3)).data, a.data);
    assert_eq!(eye(2).matmul(&a).data, a.data);
}

#[test]
fn gather_undoes_scatter() {
    let t = tensor(vec![1., 2., 3., 4.], &[2, 2]);
    let idx = [4usize, 1];
    let s = t.scatter_add_rows(&idx, 5);
    assert_eq!(s.gather_rows(&idx).data, t.data);
    assert_eq!(values(&s.gather_rows(&[0, 2, 3])), vec![0.0; 6]);
}

#[test]
fn broadcast_is_a_gathered_row() {
    let x: Tensor<F> = Tensor::randn(&[3, 2], 4);
    let b = tensor(vec![0.5, -7.0], &[2]);
    let rows = b.reshape(&[1, 2]).gather_rows(&[0, 0, 0]);
    assert_eq!(x.add(&b).data, x.add(&rows).data);
}

#[test]
fn add_commutes() {
    let a: Tensor<F> = Tensor::randn(&[2, 2, 2], 1);
    let b: Tensor<F> = Tensor::randn(&[2, 2, 2], 2);
    assert_eq!(a.add(&b).data, b.add(&a).data);
}

#[test]
fn relu_is_idempotent() {
    let t = tensor(vec![-1., f32::NAN, 2., f32::INFINITY, f32::NEG_INFINITY, -0.0], &[6]);
    let once = t.relu();
    assert_eq!(values(&once), vec![0., 0., 2., f32::INFINITY, 0., 0.]);
    assert_eq!(once.relu().data, once.data);
}

#[test]
fn distance_is_symmetric() {
    let a: Tensor<F> = Tensor::randn(&[9], 1);
    let b: Tensor<F> = Tensor::randn(&[9], 2);
    assert_eq!(a.l2_diff(&b), b.l2_diff(&a));
    assert!(a.l2_diff(&b).0 > 0.0);
    assert_eq!(a.l2_diff(&a).0, 0.0);
}

// ---------- random tensors ----------

#[test]
fn xorshift_known_states() {
    let mut state = 1u64;
    let u: F = xorshift_uniform(&mut state);
    assert_eq!(state, 1082269761);
    assert_eq!(u.0, 528452.0 / 2097152.0);
    let u: F = xorshift_uniform(&mut state);
    assert_eq!(state, 1152992998833853505);
    assert_eq!(u.0, 98338.0 / 2097152.0);
    let u: F = xorshift_uniform(&mut state);
    assert_eq!(state, 11177516664432764457);
    assert_eq!(u.0, 905412.0 / 2097152.0);
}

#[test]
fn generator_never_reaches_zero() {
    for seed in [1u64, 2, 3, u64::MAX, 1 << 63] {
        let mut state = seed;
        for _ in 0..10_000 {
            let _: F = xorshift_uniform(&mut state);
            assert_ne!(state, 0);
        }
    }
    // different states have different successors
    let mut next: Vec<u64> = (0..1000u64)
        .map(|s| {
            let mut state = s;
            let _: F = xorshift_uniform(&mut state);
            state
        })
        .collect();
    next.sort();
    next.dedup();
    assert_eq!(next.len(), 1000);
}

#[test]
fn randn_is_box_muller() {
    let mut state = 5u64;
    let u1: F = xorshift_uniform(&mut state);
    let u2: F = xorshift_uniform(&mut state);
    let r = (-2.0 * u1.0.max(1e-12).ln()).sqrt();
    let theta = 2.0 * std::f32::consts::PI * u2.0;
    let t: Tensor<F> = Tensor::randn(&[2], 5);
    assert_eq!(values(&t), vec![r * theta.cos(), r * theta.sin()]);
}

#[test]
fn uniforms_lie_below_one_and_vary() {
    for seed in [1u64, 2, 77, u64::MAX] {
        let mut state = seed;
        let mut steps = vec![];
        for _ in 0..1000 {
            let u: F = xorshift_uniform(&mut state);
            assert!((0.0..1.0).contains(&u.0));
            steps.push(u.0.to_bits());
        }
        // of five neighbouring pairs neither all first nor all second are the same
        for w in steps.windows(9) {
            assert!([w[2], w[4], w[6], w[8]].iter().any(|s| *s != w[0]));
        }
        steps.sort();
        steps.dedup();
        assert!(steps.len() > 990);
    }
}

#[test]
fn draws_vary() {
    for seed in 0..50u64 {
        let t: Tensor<F> = Tensor::randn(&[8, 8], seed);
        let data = values(&t);
        for parity in 0..2 {
            let mut seen: Vec<u32> =
                data.iter().skip(parity).step_by(2).map(|v| v.to_bits()).collect();
            seen.sort();
            seen.dedup();
            assert!(seen.len() > 30, "seed {} parity {}", seed, parity);
        }
    }
    // a large draw has mean 0 and variance 1
    let t: Tensor<F> = Tensor::randn(&[100, 100], 5);
    let data = values(&t);
    let mean = data.iter().sum::<f32>() / 10_000.0;
    let variance = data.iter().map(|v| (v - mean) * (v - mean)).sum::<f32>() / 10_000.0;
    assert!(mean.abs() < 0.05, "mean {}", mean);
    assert!((variance - 1.0).abs() < 0.1, "variance {}", variance);
}

#[test]
fn shorter_draws_are_prefixes() {
    let long: Tensor<F> = Tensor::randn(&[3, 7], 9);
    for n in 0..21usize {
        let short: Tensor<F> = Tensor::randn(&[n], 9);
        assert_eq!(short.data[..], long.data[..n]);
    }
}

#[test]
fn randn_depends_on_the_seed_alone() {
    let a: Tensor<F> = Tensor::randn(&[3, 3], 11);
    let b: Tensor<F> = Tensor::randn(&[3, 3], 11);
    let c: Tensor<F> = Tensor::randn(&[9], 11);
    let d: Tensor<F> = Tensor::randn(&[3, 3], 12);
    assert_eq!(a.data, b.data);
    assert_eq!(a.data, c.data);
    assert_ne!(a.data, d.data);
    assert_eq!(a.data.len(), 9);
    let zero: Tensor<F> = Tensor::randn(&[4], 0);
    let one: Tensor<F> = Tensor::randn(&[4], 1);
    assert_eq!(zero.data, one.data);
}

// ---------- layers ----------

#[test]
fn fresh_layer_is_scaled() {
    let layer: Linear<F> = Linear::new(3, 2, 9);
    let raw: Tensor<F> = Tensor::randn(&[3, 2], 9);
    let scale = (2.0f32 / 3.0).sqrt();
    let expected: Vec<f32> = values(&raw).iter().map(|v| v * scale).collect();
    assert_eq!(values(&layer.weight), expected);
    assert_eq!(values(&layer.bias), vec![0.0, 0.0]);
}

#[test]
fn fresh_network_spaces_its_seeds() {
    let mlp: Mlp<F> = Mlp::new(&[3, 2, 2], 9);
    assert_eq!(mlp.layers.len(), 2);
    let second: Linear<F> = Linear::new(2, 2, 9 + 7919);
    assert_eq!(mlp.layers[1].weight.data, second.weight.data);
}

#[test]
fn relu_stands_between_layers_only() {
    let first = Linear::from_weights(tensor(vec![1., -1.], &[1, 2]), tensor(vec![0., 0.], &[2]));
    let second = Linear::from_weights(tensor(vec![1., 1.], &[2, 1]), tensor(vec![-5.], &[1]));
    let mlp = Mlp { layers: vec![first, second] };
    let x = tensor(vec![2., -3.], &[2, 1]);
    // rows: relu([2,-2]) = [2,0] -> -3 ; relu([-3,3]) = [0,3] -> -2
    assert_eq!(values(&mlp.forward(&x)), vec![-3., -2.]);
}

#[test]
fn argmax_takes_the_last_of_equals() {
    let t = tensor(vec![1., 3., 3., 2., 2., 1.], &[2, 3]);
    assert_eq!(argmax_rows(&t), Some(vec![2, 1]));
}

#[test]
fn argmax_gives_up_on_unordered() {
    let t = tensor(vec![1., f32::NAN, 3.], &[1, 3]);
    assert_eq!(argmax_rows(&t), None);
    // a row of one element is never compared
    let t = tensor(vec![f32::NAN, f32::NAN], &[2, 1]);
    assert_eq!(argmax_rows(&t), Some(vec![0, 0]));
}

#[test]
fn predictions_repeat() {
    let mlp: Mlp<F> = Mlp::new(&[5, 4, 3], 1);
    let x: Tensor<F> = Tensor::randn(&[6, 5], 2);
    assert_eq!(mlp.predict(&x), mlp.predict(&x));
    assert_eq!(mlp.try_predict(&x), Some(mlp.predict(&x)));
    assert_eq!(mlp.forward(&x).data, mlp.forward(&x).data);
}

#[test]
fn first_layer_comes_off() {
    let mut mlp: Mlp<F> = Mlp::new(&[5, 4, 3], 1);
    let x: Tensor<F> = Tensor::randn(&[2, 5], 2);
    let y = mlp.forward(&x);
    let first = mlp.layers.remove(0);
    let hidden = first.forward(&x).relu();
    assert_eq!(mlp.forward(&hidden).data, y.data);
    assert_eq!(mlp.layers[0].forward(&hidden).data, y.data);
}

#[test]
fn network_is_assembled_by_name() {
    let w1 = tensor(vec![1., 2.], &[1, 2]);
    let b1 = tensor(vec![0., 1.], &[2]);
    let w2 = tensor(vec![3., 4.], &[2, 1]);
    let b2 = tensor(vec![5.], &[1]);
    let all = [("fc1.weight", &w1), ("fc1.bias", &b1), ("fc2.weight", &w2), ("fc2.bias", &b2)];
    let m = parse_rtw::<F>(&encode(&all)).ok().unwrap();
    let mlp = two_layer_mlp(&m).unwrap();
    assert_eq!(mlp.layers.len(), 2);
    // relu([1*1+0, 1*2+1]) = [1, 3] -> 3 + 12 + 5
    assert_eq!(values(&mlp.forward(&tensor(vec![1.], &[1, 1]))), vec![20.]);
    for missing in 0..4 {
        let mut some = all.to_vec();
        some.remove(missing);
        let m = parse_rtw::<F>(&encode(&some)).ok().unwrap();
        assert!(two_layer_mlp(&m).is_none());
        let mut wrong = all.to_vec();
        wrong[missing].1 = if missing % 2 == 0 { &b2 } else { &w2 };
        let m = parse_rtw::<F>(&encode(&wrong)).ok().unwrap();
        assert_eq!(two_layer_mlp(&m).is_none(), missing != 1);
    }
}

#[test]
fn unordered_logits_are_not_predicted() {
    let layer = Linear::from_weights(tensor(vec![1., -1.], &[1, 2]), tensor(vec![0., 0.], &[2]));
    let mlp = Mlp { layers: vec![layer] };
    assert_eq!(mlp.try_predict(&tensor(vec![2.0, f32::NAN], &[2, 1])), None);
    assert_eq!(mlp.try_predict(&tensor(vec![2.0, -2.0], &[2, 1])), Some(vec![0, 1]));
}

#[test]
fn samples_do_not_mix() {
    let mlp: Mlp<F> = Mlp::new(&[5, 4, 3], 1);
    let x: Tensor<F> = Tensor::randn(&[6, 5], 2);
    let some = x.gather_rows(&[4, 1]);
    assert_eq!(mlp.forward(&some).data, mlp.forward(&x).gather_rows(&[4, 1]).data);
    let all = mlp.predict(&x);
    assert_eq!(mlp.predict(&some), vec![all[4], all[1]]);
}

#[test]
fn batches_are_checked() {
    let mlp: Mlp<F> = Mlp::new(&[5, 4, 3], 1);
    assert!(mlp.accepts_batch(&Tensor::zeros(&[2, 5])));
    assert!(!mlp.accepts_batch(&Tensor::zeros(&[2, 6])));
    assert!(!mlp.accepts_batch(&Tensor::zeros(&[5])));
    assert!(mlp.layers[0].accepts_shape(&[7, 5]));
    assert!(!mlp.layers[0].accepts_shape(&[5, 7]));
    let none: Mlp<F> = Mlp { layers: vec![] };
    assert!(!none.accepts_batch(&Tensor::zeros(&[2, 5])));
}

// ---------- files ----------

fn error_of(buf: &[u8]) -> Option<RtwError> {
    parse_rtw::<F>(buf).err()
}

#[test]
fn every_cut_file_is_truncated() {
    let w = tensor(vec![1.5, -2.0], &[2]);
    let buf = encode(&[("a", &w), ("b", &w)]);
    for k in 0..buf.len() {
        assert_eq!(error_of(&buf[..k]), Some(RtwError::Truncated), "cut at {}", k);
    }
    assert_eq!(error_of(&buf), None);
}

#[test]
fn trailing_bytes_are_ignored() {
    let w = tensor(vec![1.5], &[1]);
    let mut buf = encode(&[("a", &w)]);
    buf.extend_from_slice(b"more");
    let m = parse_rtw::<F>(&buf).ok().unwrap();
    assert_eq!(m.len(), 1);
    assert_eq!(values(m.get("a").unwrap()), vec![1.5]);
}

#[test]
fn layouts_tell_entries_apart() {
    let a = tensor(vec![1.0, 2.0], &[2]);
    let b = tensor(vec![1.0, 2.0], &[1, 2]);
    let c = tensor(vec![1.0, -2.0], &[2]);
    assert_ne!(encode(&[("x", &a)]), encode(&[("x", &b)]));
    assert_ne!(encode(&[("x", &a)]), encode(&[("x", &c)]));
    assert_ne!(encode(&[("x", &a)]), encode(&[("y", &a)]));
    // what was read is written as it stood
    let buf = encode(&[("x", &b)]);
    let m = parse_rtw::<F>(&buf).ok().unwrap();
    assert_eq!(encode(&[("x", m.get("x").unwrap())]), buf);
}

#[test]
fn last_of_equal_names_wins() {
    let a = tensor(vec![1.0], &[1]);
    let b = tensor(vec![2.0, 3.0], &[2]);
    let m = parse_rtw::<F>(&encode(&[("x", &a), ("x", &b)])).ok().unwrap();
    assert_eq!(m.len(), 1);
    assert_eq!(values(m.get("x").unwrap()), vec![2.0, 3.0]);
}

#[test]
fn names_are_utf8() {
    let a = tensor(vec![1.0], &[1]);
    let m = parse_rtw::<F>(&encode(&[("gewicht_\u{fc}", &a)])).ok().unwrap();
    assert!(m.get("gewicht_\u{fc}").is_some());
    assert!(m.get("gewicht_u").is_none());
    let mut buf = encode(&[("x", &a)]);
    buf[14] = 0xff;
    assert_eq!(error_of(&buf), Some(RtwError::NonUtf8Name));
}

#[test]
fn errors_come_in_order() {
    assert_eq!(error_of(b""), Some(RtwError::Truncated));
    assert_eq!(error_of(b"RTWv2\0\0\0\0\0"), Some(RtwError::BadMagic));
    assert_eq!(error_of(b"RTWv1\0\0"), Some(RtwError::Truncated));
    assert_eq!(error_of(b"RTWv1\0\0\0\0\0"), None);
    assert_eq!(RtwError::Truncated.message(), "truncated RTW file");
    assert_eq!(RtwError::BadMagic.message(), "bad RTW magic");
    assert_eq!(RtwError::NonUtf8Name.message(), "non-utf8 tensor name");
    assert_eq!(RtwError::ShapeOverflow.message(), "tensor shape too large");
}

fn header(dims: &[u64]) -> Vec<u8> {
    let mut buf = b"RTWv1\0\x01\0\0\0\x01\0\0\0x".to_vec();
    buf.extend_from_slice(&(dims.len() as u32).to_le_bytes());
    for d in dims {
        buf.extend_from_slice(&d.to_le_bytes());
    }
    buf
}

#[test]
fn huge_shapes_are_refused() {
    let big = 1u64 << 40;
    assert_eq!(error_of(&header(&[big, big])), Some(RtwError::Truncated));
    assert_eq!(error_of(&header(&[u64::MAX])), Some(RtwError::Truncated));
    assert_eq!(error_of(&header(&[big, big, 0])), Some(RtwError::ShapeOverflow));
    assert_eq!(error_of(&header(&[0, big, big])), Some(RtwError::ShapeOverflow));
    let m = parse_rtw::<F>(&header(&[3, 0])).ok().unwrap();
    assert_eq!(m.get("x").unwrap().shape, vec![3, 0]);
}

#[test]
fn scalar_entry_has_one_element() {
    let mut buf = header(&[]);
    buf.extend_from_slice(&2.5f32.to_le_bytes());
    let m = parse_rtw::<F>(&buf).ok().unwrap();
    assert_eq!(values(m.get("x").unwrap()), vec![2.5]);
}

#[test]
fn numbers_are_little_endian() {
    let buf = [9, 1, 2, 3, 4, 5, 6, 7, 8];
    assert_eq!(read_u32(&buf, 1), 0x04030201);
    assert_eq!(read_u64(&buf, 1), 0x0807060504030201);
}

// ---------- message passing ----------

#[test]
fn one_damped_round() {
    // ring 0 -> 1 -> 0
    let state = tensor(vec![1.0, 0.0], &[2, 1]);
    let next = message_round(&state, &[0, 1], &[1, 0], F(0.75));
    assert_eq!(values(&next), vec![0.25, 0.75]);
}

#[test]
fn run_halts_at_the_first_small_move() {
    let state = tensor(vec![1.0, 0.0], &[2, 1]);
    let run = run_until_settled(&state, &[0, 1], &[1, 0], F(0.5), F(0.1), 50);
    // one round reaches [0.5, 0.5]; the next does not move
    assert!(run.converged);
    assert_eq!(run.deltas.len(), 2);
    assert_eq!(run.deltas[1].0, 0.0);
    assert_eq!(values(&run.state), vec![0.5, 0.5]);
}

#[test]
fn runs_repeat() {
    let state: Tensor<F> = Tensor::randn(&[4, 2], 3);
    let (src, dst) = ring(4);
    let a = run_until_settled(&state, &src, &dst, F(0.4), F(0.01), 30);
    let b = run_until_settled(&state, &src, &dst, F(0.4), F(0.01), 30);
    assert_eq!(a.deltas, b.deltas);
    assert_eq!(a.state.data, b.state.data);
    assert_eq!(a.converged, b.converged);
    assert_eq!(max_diff(&a.state, &b.state).0, 0.0);
}

#[test]
fn run_keeps_its_budget() {
    // an undamped ring swaps its two states for ever
    let state = tensor(vec![1.0, 0.0], &[2, 1]);
    let run = run_until_settled(&state, &[0, 1], &[1, 0], F(1.0), F(0.1), 5);
    assert!(!run.converged);
    assert_eq!(run.deltas.len(), 5);
    assert_eq!(values(&run.state), vec![0.0, 1.0]);
    let none = run_until_settled(&state, &[0, 1], &[1, 0], F(1.0), F(0.1), 0);
    assert!(!none.converged);
    assert_eq!(none.state.data, state.data);
}

#[test]
fn ring_leads_back_to_its_start() {
    assert_eq!(ring(3), (vec![0, 1, 2], vec![1, 2, 0]));
    assert_eq!(ring(1), (vec![0], vec![0]));
    assert_eq!(ring(0), (vec![], vec![]));
}

#[test]
fn signal_spreads_round_the_ring() {
    let (nodes, feat, damping, eps) = (6usize, 4usize, 0.6f32, 1e-4f32);
    let state = hot_node::<F>(nodes, feat);
    assert_eq!(&values(&state)[..8], &[1., 1., 1., 1., 0., 0., 0., 0.]);
    let (src, dst) = ring(nodes);
    for (budget, settles) in [(50usize, false), (200, true)] {
        let run = run_until_settled(&state, &src, &dst, F(damping), F(eps), budget);
        // the same by hand: each node hears its predecessor only
        let mut now = values(&state);
        let mut deltas = vec![];
        for _ in 0..budget {
            let mut next = vec![0.0f32; nodes * feat];
            for n in 0..nodes {
                for f in 0..feat {
                    let heard = now[((n + nodes - 1) % nodes) * feat + f];
                    next[n * feat + f] = damping * heard + (1.0 - damping) * now[n * feat + f];
                }
            }
            let moved: f32 = next.iter().zip(&now).map(|(a, b)| (a - b) * (a - b)).sum();
            now = next;
            deltas.push(moved.sqrt());
            if moved.sqrt() < eps {
                break;
            }
        }
        assert_eq!(run.converged, settles);
        assert_eq!(run.deltas.len() < budget, settles);
        assert_eq!(run.deltas.iter().map(|d| d.0).collect::<Vec<f32>>(), deltas);
        assert_eq!(values(&run.state), now);
    }
}

// ---------- agreement ----------

#[test]
fn network_is_compared() {
    // two classes: [x, -x]
    let layer = Linear::from_weights(tensor(vec![1., -1.], &[1, 2]), tensor(vec![0., 0.], &[2]));
    let mlp = Mlp { layers: vec![layer] };
    let inputs = tensor(vec![1., -2., 3.], &[3, 1]);
    let labels = tensor(vec![0., 1., 1.], &[3]);
    let logits = mlp.forward(&inputs);
    let same = compare(&mlp, &inputs, &logits, &logits, &labels).unwrap();
    assert_eq!(same.max_diff.0, 0.0);
    assert_eq!((same.argmax_agree, same.correct, same.samples), (3, 2, 3));
    assert!(same.passes(F(1e-4)));
    assert!(!same.passes(F(0.0)));
    let other = tensor(vec![1., -1., 0.5, 2., 1., 2.], &[3, 2]);
    let far = compare(&mlp, &inputs, &logits, &other, &labels).unwrap();
    assert_eq!(far.max_diff.0, 5.0);
    assert_eq!((far.argmax_agree, far.correct, far.samples), (2, 2, 3));
    assert!(!far.passes(F(10.0)));
    let lost = tensor(vec![1., f32::NAN, 0., 1., 0., 1.], &[3, 2]);
    assert!(compare(&mlp, &inputs, &logits, &lost, &labels).is_none());
    let one = Report { max_diff: F(0.5), argmax_agree: 1, correct: 0, samples: 1 };
    assert!(one.passes(F(1.0)));
    assert_eq!(F::from_bits(TOLERANCE_BITS).0, 1e-4);
    assert!(!one.passes(F::from_bits(TOLERANCE_BITS)));
    assert!(!one.passes(F(f32::NAN)));
}

#[test]
fn agreement_of_logits() {
    let a = tensor(vec![1.0, 2.0, 3.0], &[3]);
    let b = tensor(vec![1.5, 2.0, 1.0], &[3]);
    assert_eq!(max_diff(&a, &b).0, 2.0);
    assert_eq!(count_matches(&[1, 2, 3], &[1, 0, 3, 4]), 2);
    assert_eq!(indices(&tensor(vec![7.0, 2.9], &[2])), vec![7, 2]);
}

// ---------- batches ----------

#[test]
fn body_becomes_a_batch() {
    let mut body = Vec::new();
    for i in 0..2 * IN_FEATURES {
        body.extend_from_slice(&(i as f32).to_le_bytes());
    }
    let t = decode_batch::<F>(&body).unwrap();
    assert_eq!(t.shape, vec![2, 784]);
    assert_eq!(t.at2(1, 3).0, 787.0);
    assert!(decode_batch::<F>(&body[1..]).is_none());
    assert!(decode_batch::<F>(&[]).is_none());
    let request = Request { route: Route::Predict, content_length: body.len(), want_close: false };
    assert!(matches!(reply_to::<F>(&request, &body), Reply::Run(_)));
}

#[test]
fn requests_are_answered() {
    let send = |route: Route, want_close: bool, body: &[u8]| -> String {
        let request = Request { route, content_length: body.len(), want_close };
        match reply_to::<F>(&request, body) {
            Reply::Send(out) => String::from_utf8(out).unwrap(),
            Reply::Run(_) => panic!("no batch was sent"),
        }
    };
    assert_eq!(
        send(Route::Health, false, b""),
        "HTTP/1.1 200 OK\r\nContent-Type: text/plain\r\nContent-Length: 2\r\nConnection: keep-alive\r\n\r\nok"
    );
    assert_eq!(
        send(Route::Other, true, b""),
        "HTTP/1.1 404 Not Found\r\nContent-Type: text/plain\r\nContent-Length: 9\r\nConnection: close\r\n\r\nnot found"
    );
    assert_eq!(
        send(Route::Predict, false, b"abc"),
        "HTTP/1.1 400 Bad Request\r\nContent-Type: text/plain\r\nContent-Length: 40\r\nConnection: keep-alive\r\n\r\nbody must be N*784*4 bytes of f32, got 3"
    );
    assert!(send(Route::Predict, false, b"").ends_with("got 0"));
}
