//! Support for simulated perception: what a detected entity is, and the
//! deterministic, seedable pseudo-random generator (splitmix64) that makes
//! perception noise reproducible from a seed.

use vstd::prelude::*;

verus! {

/// What an entity is, so an agent can tell a peer from a wall.
#[derive(Debug, Clone, Copy, PartialEq, Eq, Structural)]
pub enum DetectionKind {
    Agent,
    Static,
}

/// The splitmix64 state increment (the 64-bit golden-ratio constant).
pub const GOLDEN_GAMMA: u64 = 0x9E37_79B9_7F4A_7C15;

/// The two splitmix64 mixing multipliers.
pub const MIX_MUL_1: u64 = 0xBF58_476D_1CE4_E5B9;
pub const MIX_MUL_2: u64 = 0x94D0_49BB_1331_11EB;

/// 2^64, the modulus of 64-bit wrapping arithmetic.
pub open spec fn two_to_64() -> nat {
    0x1_0000_0000_0000_0000
}

/// Multiplication modulo 2^64.
pub open spec fn mul_mod64(a: u64, b: u64) -> u64 {
    ((a as nat * b as nat) % 0x1_0000_0000_0000_0000) as u64
}

/// The state after one step: `state + GOLDEN_GAMMA` modulo 2^64.
pub open spec fn advance(state: u64) -> u64 {
    ((state as nat + GOLDEN_GAMMA as nat) % two_to_64()) as u64
}

/// The splitmix64 output function applied to a state.
pub open spec fn mix(state: u64) -> u64 {
    let z1 = mul_mod64(state ^ (state >> 30u64), MIX_MUL_1);
    let z2 = mul_mod64(z1 ^ (z1 >> 27u64), MIX_MUL_2);
    z2 ^ (z2 >> 31u64)
}

/// The state after `n` steps from `seed`: `seed + n * GOLDEN_GAMMA` modulo 2^64.
pub open spec fn nth_state(seed: u64, n: nat) -> u64 {
    ((seed as nat + n * GOLDEN_GAMMA as nat) % two_to_64()) as u64
}

/// A splitmix64 generator. Its whole state is one 64-bit word.
pub struct Rng(u64);

impl Rng {
    /// The generator's state.
    pub closed spec fn state(&self) -> u64 {
        self.0
    }

    /// A generator whose state is `seed`.
    pub fn seed(seed: u64) -> (r: Self)
        ensures
            r.state() == seed,
    {
        Self(seed)
    }

    /// Advance the state by `GOLDEN_GAMMA` (wrapping) and return the mixed
    /// new state.
    pub fn next_u64(&mut self) -> (out: u64)
        ensures
            final(self).state() == advance(old(self).state()),
            out == mix(final(self).state()),
    {
        self.0 = self.0.wrapping_add(GOLDEN_GAMMA);
        let mut z = self.0;
        z = (z ^ (z >> 30u64)).wrapping_mul(MIX_MUL_1);
        z = (z ^ (z >> 27u64)).wrapping_mul(MIX_MUL_2);
        z ^ (z >> 31u64)
    }
}

/// The stream is a function of the seed alone: a generator seeded with `seed`
/// is at `nth_state(seed, 0) == seed`, and each step moves it from
/// `nth_state(seed, n)` to `nth_state(seed, n + 1)`. Two generators given the
/// same seed therefore produce the same outputs, `mix(nth_state(seed, n))`
/// for `n = 1, 2, ...`.
pub proof fn lemma_stream_is_seed_determined(seed: u64, n: nat)
    ensures
        nth_state(seed, 0) == seed,
        advance(nth_state(seed, n)) == nth_state(seed, n + 1),
{
    let m = two_to_64() as int;
    let a = seed as int + n * GOLDEN_GAMMA as int;
    let g = GOLDEN_GAMMA as int;
    vstd::arithmetic::div_mod::lemma_add_mod_noop(a, g, m);
    vstd::arithmetic::div_mod::lemma_small_mod(g as nat, m as nat);
    vstd::arithmetic::div_mod::lemma_small_mod(seed as nat, m as nat);
    assert(n * g + g == (n + 1) * g) by (nonlinear_arith);
}

/// `x ^ (x >> 30)` is undone by xoring in its own shifts by 30 and 60.
proof fn lemma_unshift_30(x: u64)
    ensures
        (x ^ (x >> 30u64)) ^ ((x ^ (x >> 30u64)) >> 30u64) ^ ((x ^ (x >> 30u64)) >> 60u64) == x,
{
    assert((x ^ (x >> 30u64)) ^ ((x ^ (x >> 30u64)) >> 30u64) ^ ((x ^ (x >> 30u64)) >> 60u64) == x) by (bit_vector);
}

/// `x ^ (x >> 27)` is undone by xoring in its own shifts by 27 and 54.
proof fn lemma_unshift_27(x: u64)
    ensures
        (x ^ (x >> 27u64)) ^ ((x ^ (x >> 27u64)) >> 27u64) ^ ((x ^ (x >> 27u64)) >> 54u64) == x,
{
    assert((x ^ (x >> 27u64)) ^ ((x ^ (x >> 27u64)) >> 27u64) ^ ((x ^ (x >> 27u64)) >> 54u64) == x) by (bit_vector);
}

/// `x ^ (x >> 31)` is undone by xoring in its own shifts by 31 and 62.
proof fn lemma_unshift_31(x: u64)
    ensures
        (x ^ (x >> 31u64)) ^ ((x ^ (x >> 31u64)) >> 31u64) ^ ((x ^ (x >> 31u64)) >> 62u64) == x,
{
    assert((x ^ (x >> 31u64)) ^ ((x ^ (x >> 31u64)) >> 31u64) ^ ((x ^ (x >> 31u64)) >> 62u64) == x) by (bit_vector);
}

/// Multiplying by `c` modulo 2^64 is undone by multiplying by `inv` when
/// `c * inv` is 1 modulo 2^64.
proof fn lemma_unmultiply(a: u64, c: u64, inv: u64)
    requires
        (c as int * inv as int) % 0x1_0000_0000_0000_0000 == 1,
    ensures
        mul_mod64(mul_mod64(a, c), inv) == a,
{
    let m: int = 0x1_0000_0000_0000_0000;
    let x = a as int * c as int;
    vstd::arithmetic::div_mod::lemma_mul_mod_noop_left(x, inv as int, m);
    vstd::arithmetic::mul::lemma_mul_is_associative(a as int, c as int, inv as int);
    vstd::arithmetic::div_mod::lemma_mul_mod_noop_right(a as int, c as int * inv as int, m);
    vstd::arithmetic::div_mod::lemma_small_mod(a as nat, m as nat);
    assert(mul_mod64(a, c) as int == x % m);
}

/// The splitmix64 output function is injective: distinct states give
/// distinct outputs.
pub proof fn lemma_mix_injective(a: u64, b: u64)
    requires
        mix(a) == mix(b),
    ensures
        a == b,
{
    let inv1: u64 = 0x96de_1b17_3f11_9089;
    let inv2: u64 = 0x3196_42b2_d24d_8ec3;
    assert((MIX_MUL_1 as int * inv1 as int) % 0x1_0000_0000_0000_0000 == 1);
    assert((MIX_MUL_2 as int * inv2 as int) % 0x1_0000_0000_0000_0000 == 1);
    let a1 = mul_mod64(a ^ (a >> 30u64), MIX_MUL_1);
    let b1 = mul_mod64(b ^ (b >> 30u64), MIX_MUL_1);
    let a2 = mul_mod64(a1 ^ (a1 >> 27u64), MIX_MUL_2);
    let b2 = mul_mod64(b1 ^ (b1 >> 27u64), MIX_MUL_2);
    lemma_unshift_31(a2);
    lemma_unshift_31(b2);
    assert(a2 == b2);
    lemma_unmultiply(a1 ^ (a1 >> 27u64), MIX_MUL_2, inv2);
    lemma_unmultiply(b1 ^ (b1 >> 27u64), MIX_MUL_2, inv2);
    lemma_unshift_27(a1);
    lemma_unshift_27(b1);
    assert(a1 == b1);
    lemma_unmultiply(a ^ (a >> 30u64), MIX_MUL_1, inv1);
    lemma_unmultiply(b ^ (b >> 30u64), MIX_MUL_1, inv1);
    lemma_unshift_30(a);
    lemma_unshift_30(b);
}

/// Different seeds give different first outputs: the first output is
/// `mix(advance(seed))`, and both steps are injective.
pub proof fn lemma_first_output_injective(a: u64, b: u64)
    requires
        a != b,
    ensures
        mix(advance(a)) != mix(advance(b)),
{
    if mix(advance(a)) == mix(advance(b)) {
        lemma_mix_injective(advance(a), advance(b));
        let m: int = 0x1_0000_0000_0000_0000;
        let g = GOLDEN_GAMMA as int;
        assert((a as int + g) % m == (b as int + g) % m);
        vstd::arithmetic::div_mod::lemma_fundamental_div_mod(a as int + g, m);
        vstd::arithmetic::div_mod::lemma_fundamental_div_mod(b as int + g, m);
        assert(false) by (nonlinear_arith)
            requires
                (a as int + g) % m == (b as int + g) % m,
                a as int + g == m * ((a as int + g) / m) + (a as int + g) % m,
                b as int + g == m * ((b as int + g) / m) + (b as int + g) % m,
                0 <= a < m,
                0 <= b < m,
                0 <= g < m,
                a != b,
        ;
    }
}

/// A generator seeded one step ahead runs one step ahead: seeded with
/// `seed + GOLDEN_GAMMA` (wrapping), its state after `n` steps is the state
/// after `n + 1` steps from `seed`, so its outputs are those of `seed`'s
/// stream from the second on.
pub proof fn lemma_shifted_seed(seed: u64, shifted: u64, n: nat)
    requires
        shifted as nat == (seed as nat + GOLDEN_GAMMA as nat) % two_to_64(),
    ensures
        nth_state(shifted, n) == nth_state(seed, n + 1),
{
    let m = two_to_64() as int;
    let g = GOLDEN_GAMMA as int;
    assert(n * g >= 0) by (nonlinear_arith)
        requires
            g >= 0,
    ;
    vstd::arithmetic::div_mod::lemma_add_mod_noop(seed as int + g, n * g, m);
    vstd::arithmetic::div_mod::lemma_add_mod_noop(shifted as int, n * g, m);
    vstd::arithmetic::div_mod::lemma_small_mod(shifted as nat, m as nat);
    assert(seed as int + g + n * g == seed as int + (n + 1) * g) by (nonlinear_arith);
}

} // verus!
