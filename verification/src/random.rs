//! Deterministic pseudo-random tensors: an xorshift generator and the
//! Box-Muller transform.
use vstd::prelude::*;

use crate::scalar::{
    cos_gives, from_bits_gives, from_u64_gives, ln_gives, maximum_gives, negate_gives, over_gives,
    pi_gives, sin_gives, sqrt_gives, times_gives,
};
use crate::scalar::Scalar;
use crate::shape::{fits, product, shape_product};
use crate::tensor::Tensor;

verus! {

/// How many uniform numbers there are: few enough that a 32-bit float holds
/// each of them exactly.
pub const UNIFORM_STEPS: u64 = 0x20_0000;

/// The bit pattern of 1e-12, the least argument at which a logarithm is taken.
pub const LEAST_BITS: u32 = 0x2B8C_BCCC;

/// The state that follows `s` in the xorshift generator.
pub open spec fn xorshift(s: u64) -> u64 {
    let a = s ^ (s << 13);
    let b = a ^ (a >> 7);
    b ^ (b << 17)
}

/// The state after `n` steps from a seed; the seed 0 counts as 1.
pub open spec fn state_after(seed: u64, n: nat) -> u64
    decreases n,
{
    if n == 0 {
        if seed == 0 {
            1
        } else {
            seed
        }
    } else {
        xorshift(state_after(seed, (n - 1) as nat))
    }
}

/// The place of the uniform number of a generator state among all of them.
pub open spec fn uniform_step(state: u64) -> u64 {
    (state >> 11) % UNIFORM_STEPS
}

/// `u` is the uniform number of a generator state: its step over the number of
/// steps, at least 0 and below 1.
pub open spec fn uniform_gives<S: Scalar>(state: u64, u: S) -> bool {
    exists|n: S, d: S|
        {
            &&& from_u64_gives(uniform_step(state), n)
            &&& from_u64_gives(UNIFORM_STEPS, d)
            &&& #[trigger] over_gives(n, d, u)
        }
}

/// `l` is the logarithm of `u`, or of the least admitted argument where `u` is
/// below that.
pub open spec fn clamped_ln_gives<S: Scalar>(u: S, l: S) -> bool {
    exists|t: S, m: S|
        from_bits_gives(LEAST_BITS, t) && #[trigger] maximum_gives(u, t, m) && #[trigger] ln_gives(m, l)
}

/// `r` is `-2`.
pub open spec fn minus_two_gives<S: Scalar>(r: S) -> bool {
    exists|two: S| from_u64_gives(2, two) && #[trigger] negate_gives(two, r)
}

/// `r` is the Box-Muller radius of a uniform number: the root of minus two
/// times its logarithm.
pub open spec fn radius_gives<S: Scalar>(u: S, r: S) -> bool {
    exists|l: S, k: S, t: S|
        {
            &&& clamped_ln_gives(u, l)
            &&& minus_two_gives(k)
            &&& #[trigger] times_gives(k, l, t)
            &&& #[trigger] sqrt_gives(t, r)
        }
}

/// `a` is the Box-Muller angle of a uniform number: two pi times it.
pub open spec fn angle_gives<S: Scalar>(u: S, a: S) -> bool {
    exists|two: S, pi: S, t: S|
        {
            &&& from_u64_gives(2, two)
            &&& pi_gives(pi)
            &&& #[trigger] times_gives(two, pi, t)
            &&& #[trigger] times_gives(t, u, a)
        }
}

/// `x` and `y` are the Cartesian coordinates of the point at radius `r` and
/// angle `a`.
pub open spec fn polar_gives<S: Scalar>(r: S, a: S, x: S, y: S) -> bool {
    &&& exists|c: S| cos_gives(a, c) && #[trigger] times_gives(r, c, x)
    &&& exists|s: S| sin_gives(a, s) && #[trigger] times_gives(r, s, y)
}

/// `x` and `y` are the two normal numbers made from two generator states.
pub open spec fn normal_pair_gives<S: Scalar>(first: u64, second: u64, x: S, y: S) -> bool {
    exists|u: S, v: S, r: S, a: S|
        {
            &&& uniform_gives(first, u)
            &&& uniform_gives(second, v)
            &&& #[trigger] radius_gives(u, r)
            &&& #[trigger] angle_gives(v, a)
            &&& polar_gives(r, a, x, y)
        }
}

/// `data` holds the normal numbers of a seed, pair by pair; of the last pair
/// the second is left out where the count is odd.
pub open spec fn normals_give<S: Scalar>(seed: u64, data: Seq<S>) -> bool {
    &&& forall|p: int|
        0 <= p && 2 * p + 1 < data.len() ==> #[trigger] normal_pair_gives(
            state_after(seed, (2 * p + 1) as nat),
            state_after(seed, (2 * p + 2) as nat),
            data[2 * p],
            data[2 * p + 1],
        )
    &&& data.len() % 2 == 1 ==> exists|y: S| #[trigger]
        normal_pair_gives(
            state_after(seed, data.len()),
            state_after(seed, data.len() + 1),
            data.last(),
            y,
        )
}

/// The generator never reaches the state 0, in which it would stay.
pub proof fn state_stays_nonzero(seed: u64, n: nat)
    ensures
        state_after(seed, n) != 0,
    decreases n,
{
    if n > 0 {
        state_stays_nonzero(seed, (n - 1) as nat);
        let s = state_after(seed, (n - 1) as nat);
        assert(s != 0 ==> (s ^ (s << 13)) != 0) by (bit_vector);
        let a = s ^ (s << 13);
        assert(a != 0 ==> (a ^ (a >> 7)) != 0) by (bit_vector);
        let b = a ^ (a >> 7);
        assert(b != 0 ==> (b ^ (b << 17)) != 0) by (bit_vector);
    }
}

/// Different states of the generator have different successors.
pub proof fn xorshift_is_injective(s: u64, t: u64)
    requires
        xorshift(s) == xorshift(t),
    ensures
        s == t,
{
    let a = s ^ (s << 13);
    let c = t ^ (t << 13);
    let b = a ^ (a >> 7);
    let d = c ^ (c >> 7);
    assert((b ^ (b << 17)) == (d ^ (d << 17)) ==> b == d) by (bit_vector);
    assert((a ^ (a >> 7)) == (c ^ (c >> 7)) ==> a == c) by (bit_vector);
    assert((s ^ (s << 13)) == (t ^ (t << 13)) ==> s == t) by (bit_vector);
}

/// The generator never stands still: a state differs from the one before.
pub proof fn states_keep_changing(seed: u64, n: nat)
    ensures
        state_after(seed, n + 1) != state_after(seed, n),
{
    state_stays_nonzero(seed, n);
    let s = state_after(seed, n);
    assert(xorshift(s) == s ==> s == 0) by (bit_vector);
    lemma_state_step(seed, n);
}

/// One step of the generator.
proof fn lemma_state_step(seed: u64, n: nat)
    ensures
        state_after(seed, n + 1) == xorshift(state_after(seed, n)),
{
    let k = n + 1;
    assert((k - 1) as nat == n);
}

proof fn lemma_steps_differ(
    s0: u64,
    s1: u64,
    s2: u64,
    s3: u64,
    s4: u64,
    s5: u64,
    s6: u64,
    s7: u64,
    s8: u64,
)
    by (bit_vector)
    requires
        s1 == xorshift(s0),
        s2 == xorshift(s1),
        s3 == xorshift(s2),
        s4 == xorshift(s3),
        s5 == xorshift(s4),
        s6 == xorshift(s5),
        s7 == xorshift(s6),
        s8 == xorshift(s7),
    ensures
        s0 == 0 || uniform_step(s0) != uniform_step(s2) || uniform_step(s2) != uniform_step(s4)
            || uniform_step(s4) != uniform_step(s6) || uniform_step(s6) != uniform_step(s8),
{
}

/// Draws vary: whatever the seed, of five neighbouring pairs neither all first
/// nor all second uniform numbers are the same.
pub proof fn uniforms_keep_changing(seed: u64, n: nat)
    ensures
        !({
            let step = uniform_step(state_after(seed, n));
            &&& uniform_step(state_after(seed, n + 2)) == step
            &&& uniform_step(state_after(seed, n + 4)) == step
            &&& uniform_step(state_after(seed, n + 6)) == step
            &&& uniform_step(state_after(seed, n + 8)) == step
        }),
{
    state_stays_nonzero(seed, n);
    lemma_state_step(seed, n);
    lemma_state_step(seed, n + 1);
    lemma_state_step(seed, n + 2);
    lemma_state_step(seed, n + 3);
    lemma_state_step(seed, n + 4);
    lemma_state_step(seed, n + 5);
    lemma_state_step(seed, n + 6);
    lemma_state_step(seed, n + 7);
    lemma_steps_differ(
        state_after(seed, n),
        state_after(seed, n + 1),
        state_after(seed, n + 2),
        state_after(seed, n + 3),
        state_after(seed, n + 4),
        state_after(seed, n + 5),
        state_after(seed, n + 6),
        state_after(seed, n + 7),
        state_after(seed, n + 8),
    );
}

/// The seeds 0 and 1 lead to the same states and the same draws.
pub proof fn seeds_zero_and_one_agree<S: Scalar>(data: Seq<S>)
    ensures
        forall|n: nat| #[trigger] state_after(0, n) == state_after(1, n),
        normals_give(0, data) <==> normals_give(1, data),
{
    assert forall|n: nat| #[trigger] state_after(0, n) == state_after(1, n) by {
        lemma_same_states(n);
    }
    if normals_give(0, data) {
        lemma_same_draws(0, 1, data);
    }
    if normals_give(1, data) {
        lemma_same_draws(1, 0, data);
    }
}

proof fn lemma_same_states(n: nat)
    ensures
        state_after(0, n) == state_after(1, n),
    decreases n,
{
    if n > 0 {
        lemma_same_states((n - 1) as nat);
    }
}

proof fn lemma_same_draws<S: Scalar>(seed: u64, other: u64, data: Seq<S>)
    requires
        forall|n: nat| #[trigger] state_after(seed, n) == state_after(other, n),
        normals_give(seed, data),
    ensures
        normals_give(other, data),
{
    assert forall|p: int| 0 <= p && 2 * p + 1 < data.len() implies #[trigger] normal_pair_gives(
        state_after(other, (2 * p + 1) as nat),
        state_after(other, (2 * p + 2) as nat),
        data[2 * p],
        data[2 * p + 1],
    ) by {
        assert(state_after(seed, (2 * p + 1) as nat) == state_after(other, (2 * p + 1) as nat));
        assert(state_after(seed, (2 * p + 2) as nat) == state_after(other, (2 * p + 2) as nat));
        assert(normal_pair_gives(
            state_after(seed, (2 * p + 1) as nat),
            state_after(seed, (2 * p + 2) as nat),
            data[2 * p],
            data[2 * p + 1],
        ));
    }
    if data.len() % 2 == 1 {
        let n = data.len();
        assert(state_after(seed, n) == state_after(other, n));
        assert(state_after(seed, n + 1) == state_after(other, n + 1));
    }
}

/// The first numbers of a draw are a draw of the same seed.
pub proof fn draws_are_prefixes<S: Scalar>(seed: u64, data: Seq<S>, n: nat)
    requires
        normals_give(seed, data),
        n <= data.len(),
    ensures
        normals_give(seed, data.take(n as int)),
{
    let front = data.take(n as int);
    assert forall|p: int| 0 <= p && 2 * p + 1 < n implies #[trigger] normal_pair_gives(
        state_after(seed, (2 * p + 1) as nat),
        state_after(seed, (2 * p + 2) as nat),
        front[2 * p],
        front[2 * p + 1],
    ) by {
        assert(normal_pair_gives(
            state_after(seed, (2 * p + 1) as nat),
            state_after(seed, (2 * p + 2) as nat),
            data[2 * p],
            data[2 * p + 1],
        ));
    }
    if n % 2 == 1 {
        if n == data.len() {
            assert(front =~= data);
        } else {
            let p = (n - 1) / 2;
            assert(2 * p + 1 == n);
            assert(normal_pair_gives(
                state_after(seed, (2 * p + 1) as nat),
                state_after(seed, (2 * p + 2) as nat),
                data[2 * p],
                data[2 * p + 1],
            ));
            assert(normal_pair_gives(
                state_after(seed, front.len()),
                state_after(seed, front.len() + 1),
                front.last(),
                data[n as int],
            ));
        }
    }
}

/// A uniform number lies at one of the steps from 0 to 1, below 1, and states
/// that differ in the bits that count have different ones.
pub proof fn uniform_steps_span_the_unit(state: u64, other: u64)
    ensures
        uniform_step(state) < UNIFORM_STEPS,
        uniform_step(state) == uniform_step(other) <==> (state >> 11) & 0x1f_ffff == (other >> 11)
            & 0x1f_ffff,
{
    assert((state >> 11) % 0x20_0000 == (state >> 11) & 0x1f_ffff) by (bit_vector);
    assert((other >> 11) % 0x20_0000 == (other >> 11) & 0x1f_ffff) by (bit_vector);
}

/// The next uniform number of the generator.
pub fn xorshift_uniform<S: Scalar>(state: &mut u64) -> (u: S)
    ensures
        *final(state) == xorshift(*old(state)),
        uniform_gives(*final(state), u),
{
    *state = *state ^ (*state << 13);
    *state = *state ^ (*state >> 7);
    *state = *state ^ (*state << 17);
    let n: S = S::from_u64((*state >> 11) % UNIFORM_STEPS);
    let d: S = S::from_u64(UNIFORM_STEPS);
    let u: S = n.over(d);
    assert(over_gives(n, d, u));
    u
}

/// The two normal numbers of two uniform ones, as a point in the plane.
fn box_muller<S: Scalar>(u: S, v: S) -> (point: (S, S))
    ensures
        exists|r: S, a: S|
            {
                &&& #[trigger] radius_gives(u, r)
                &&& #[trigger] angle_gives(v, a)
                &&& polar_gives(r, a, point.0, point.1)
            },
{
    let t: S = S::from_bits(LEAST_BITS);
    let m: S = u.maximum(t);
    let l: S = m.ln();
    let two: S = S::from_u64(2);
    let k: S = two.negate();
    let w: S = k.times(l);
    let r: S = w.sqrt();
    assert(maximum_gives(u, t, m) && ln_gives(m, l) && negate_gives(two, k));
    assert(times_gives(k, l, w) && sqrt_gives(w, r));
    assert(radius_gives(u, r));
    let pi: S = S::pi();
    let turn: S = two.times(pi);
    let a: S = turn.times(v);
    assert(times_gives(two, pi, turn) && times_gives(turn, v, a));
    assert(angle_gives(v, a));
    let c: S = a.cos();
    let x: S = r.times(c);
    let s: S = a.sin();
    let y: S = r.times(s);
    assert(times_gives(r, c, x) && times_gives(r, s, y));
    assert(polar_gives(r, a, x, y));
    (x, y)
}

impl<S: Scalar> Tensor<S> {
    /// A tensor of pseudo-random normal numbers that depends on the seed
    /// alone.
    pub fn randn(shape: &[usize], seed: u64) -> (t: Self)
        requires
            fits(shape@),
            product(shape@) < usize::MAX,
        ensures
            t@.shape == shape@,
            t@.wf(),
            normals_give(seed, t@.data),
    {
        let n: usize = shape_product(shape);
        let mut state: u64 = if seed == 0 {
            1
        } else {
            seed
        };
        let mut data: Vec<S> = Vec::with_capacity(n);
        let half: usize = (n + 1) / 2;
        let mut i: usize = 0;
        while i < half
            invariant
                i <= half,
                half == (n + 1) / 2,
                n < usize::MAX,
                state == state_after(seed, (2 * i) as nat),
                data@.len() == 2 * i,
                forall|p: int|
                    0 <= p < i ==> #[trigger] normal_pair_gives(
                        state_after(seed, (2 * p + 1) as nat),
                        state_after(seed, (2 * p + 2) as nat),
                        data@[2 * p],
                        data@[2 * p + 1],
                    ),
            decreases half - i,
        {
            let u: S = xorshift_uniform(&mut state);
            assert(state == state_after(seed, (2 * i + 1) as nat));
            let ghost first = state;
            let v: S = xorshift_uniform(&mut state);
            assert(state == state_after(seed, (2 * i + 2) as nat));
            let point: (S, S) = box_muller(u, v);
            assert(normal_pair_gives(first, state, point.0, point.1));
            let ghost before = data@;
            data.push(point.0);
            data.push(point.1);
            proof {
                assert forall|p: int| 0 <= p < i + 1 implies #[trigger] normal_pair_gives(
                    state_after(seed, (2 * p + 1) as nat),
                    state_after(seed, (2 * p + 2) as nat),
                    data@[2 * p],
                    data@[2 * p + 1],
                ) by {
                    if p < i {
                        assert(data@[2 * p] == before[2 * p]);
                        assert(data@[2 * p + 1] == before[2 * p + 1]);
                    }
                }
            }
            i = i + 1;
        }
        let ghost all = data@;
        data.truncate(n);
        proof {
            assert forall|p: int| 0 <= p && 2 * p + 1 < n implies #[trigger] normal_pair_gives(
                state_after(seed, (2 * p + 1) as nat),
                state_after(seed, (2 * p + 2) as nat),
                data@[2 * p],
                data@[2 * p + 1],
            ) by {
                assert(p < half);
                assert(data@[2 * p] == all[2 * p] && data@[2 * p + 1] == all[2 * p + 1]);
            }
            if n % 2 == 1 {
                let p = half - 1;
                assert(data@.last() == all[2 * p]);
                assert(normal_pair_gives(
                    state_after(seed, (2 * p + 1) as nat),
                    state_after(seed, (2 * p + 2) as nat),
                    all[2 * p],
                    all[2 * p + 1],
                ));
                assert(2 * p + 1 == n);
            }
        }
        Tensor::from_vec(data, shape)
    }
}

} // verus!
