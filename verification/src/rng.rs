//! The creator's runtime input channel.
//!
//! Every non-deterministic choice inside a universe enters through here. The
//! generator is SplitMix64, written out in full so that its value stream is
//! identical across machines and can be audited by reading one file.
//!
//! The key operation is [`Rng::derive`]: a *positional* stream, so that a
//! block rendered at some tick receives the same detail whatever else was
//! rendered first.
//!
//! Every step of the generator is a bijection on `u64`, and this file proves
//! it: distinct seeds give distinct first draws, and a derived stream changes
//! whenever any single one of its coordinates changes.

use vstd::prelude::*;

verus! {

/// The golden-ratio increment that advances a SplitMix64 state.
pub const GAMMA: u64 = 0x9E37_79B9_7F4A_7C15;
/// First finalizer multiplier.
pub const MIX1: u64 = 0xBF58_476D_1CE4_E5B9;
/// Second finalizer multiplier.
pub const MIX2: u64 = 0x94D0_49BB_1331_11EB;

/// Inverse of [`MIX1`] modulo 2^64.
pub const MIX1_INV: u64 = 0x96de_1b17_3f11_9089;
/// Inverse of [`MIX2`] modulo 2^64.
pub const MIX2_INV: u64 = 0x3196_42b2_d24d_8ec3;
/// Inverse of [`GAMMA`] modulo 2^64.
pub const GAMMA_INV: u64 = 0xf1de_83e1_9937_733d;

/// 2^64, the modulus of every wrapping operation here.
pub open spec fn modulus() -> int {
    0x1_0000_0000_0000_0000
}

/// Multiplication modulo 2^64.
pub open spec fn mul64(x: u64, y: u64) -> u64 {
    ((x as int * y as int) % modulus()) as u64
}

/// Addition modulo 2^64.
pub open spec fn add64(x: u64, y: u64) -> u64 {
    ((x as int + y as int) % modulus()) as u64
}

/// The SplitMix64 finalizer.
#[verifier::opaque]
pub open spec fn mix_spec(z: u64) -> u64 {
    let a = mul64(z ^ (z >> 30u64), MIX1);
    let b = mul64(a ^ (a >> 27u64), MIX2);
    b ^ (b >> 31u64)
}

/// The state of the positional stream at coordinates `(a, b, c)`.
pub open spec fn derive_spec(seed: u64, a: u64, b: u64, c: u64) -> u64 {
    let s1 = mix_spec(seed ^ mul64(a, GAMMA));
    let s2 = mix_spec(s1 ^ mul64(b, MIX1));
    mix_spec(s2 ^ mul64(c, MIX2))
}

/// The state after one draw.
pub open spec fn advance(state: u64) -> u64 {
    add64(state, GAMMA)
}

/// The value one draw returns from a given state.
pub open spec fn draw(state: u64) -> u64 {
    mix_spec(advance(state))
}

/// The state of a generator seeded with `seed` after `n` draws.
pub open spec fn state_after(seed: u64, n: nat) -> u64
    decreases n,
{
    if n == 0 {
        seed
    } else {
        advance(state_after(seed, (n - 1) as nat))
    }
}

/// The first `n` values a generator seeded with `seed` draws.
pub open spec fn stream(seed: u64, n: nat) -> Seq<u64>
    decreases n,
{
    if n == 0 {
        Seq::empty()
    } else {
        stream(seed, (n - 1) as nat).push(draw(state_after(seed, (n - 1) as nat)))
    }
}

/// A SplitMix64 state. Cheap to copy, cheap to derive.
#[derive(Clone, Copy, Debug)]
pub struct Rng {
    state: u64,
}

impl View for Rng {
    type V = u64;

    closed spec fn view(&self) -> u64 {
        self.state
    }
}

fn wrapping_mul64(x: u64, y: u64) -> (r: u64)
    ensures
        r == mul64(x, y),
{
    x.wrapping_mul(y)
}

fn wrapping_add64(x: u64, y: u64) -> (r: u64)
    ensures
        r == add64(x, y),
{
    x.wrapping_add(y)
}

fn mix(z: u64) -> (r: u64)
    ensures
        r == mix_spec(z),
{
    reveal(mix_spec);
    let z = wrapping_mul64(z ^ (z >> 30), MIX1);
    let z = wrapping_mul64(z ^ (z >> 27), MIX2);
    z ^ (z >> 31)
}

impl Rng {
    /// The root stream. In the fiction: the seed the creator supplied at launch.
    pub fn new(seed: u64) -> (r: Self)
        ensures
            r@ == seed,
    {
        Rng { state: seed }
    }

    /// A positional sub-stream, independent of visit order.
    ///
    /// Mixing is done with distinct odd multipliers so that adjacent
    /// coordinates do not produce correlated streams.
    pub fn derive(seed: u64, a: u64, b: u64, c: u64) -> (r: Self)
        ensures
            r@ == derive_spec(seed, a, b, c),
    {
        let mut s = seed;
        s = mix(s ^ wrapping_mul64(a, GAMMA));
        s = mix(s ^ wrapping_mul64(b, MIX1));
        s = mix(s ^ wrapping_mul64(c, MIX2));
        Rng { state: s }
    }

    /// The first `n` values a generator made from `seed` draws: `n` calls of
    /// [`Rng::next_u64`] on [`Rng::new`]`(seed)`. Same seed, same stream.
    pub fn draws(seed: u64, n: usize) -> (r: Vec<u64>)
        ensures
            r@ == stream(seed, n as nat),
    {
        let mut rng = Rng::new(seed);
        let mut out: Vec<u64> = Vec::new();
        let mut k: usize = 0;
        while k < n
            invariant
                k <= n,
                rng@ == state_after(seed, k as nat),
                out@ == stream(seed, k as nat),
            decreases n - k,
        {
            let v = rng.next_u64();
            out.push(v);
            k = k + 1;
        }
        out
    }

    pub fn next_u64(&mut self) -> (r: u64)
        ensures
            final(self)@ == advance(old(self)@),
            r == draw(old(self)@),
    {
        self.state = wrapping_add64(self.state, GAMMA);
        mix(self.state)
    }
}

// ---------------------------------------------------------------------------
// Every step is a bijection.
// ---------------------------------------------------------------------------

proof fn lemma_mul_by_unit_cancels(x: u64, c: u64, c_inv: u64)
    requires
        (c as int * c_inv as int) % modulus() == 1,
    ensures
        mul64(mul64(x, c), c_inv) == x,
{
    let m = modulus();
    let p = x as int * c as int;
    vstd::arithmetic::div_mod::lemma_mul_mod_noop_left(p, c_inv as int, m);
    assert((p % m) * c_inv as int % m == p * c_inv as int % m);
    vstd::arithmetic::mul::lemma_mul_is_associative(x as int, c as int, c_inv as int);
    vstd::arithmetic::div_mod::lemma_mul_mod_noop_right(x as int, c as int * c_inv as int, m);
    assert(x as int * 1 == x as int);
    vstd::arithmetic::div_mod::lemma_small_mod(x as nat, m as nat);
    assert(0 <= p % m < m) by {
        vstd::arithmetic::div_mod::lemma_mod_bound(p, m);
    }
}

/// Multiplying by an odd constant modulo 2^64 loses nothing.
proof fn lemma_mul_injective(x: u64, y: u64, c: u64, c_inv: u64)
    requires
        (c as int * c_inv as int) % modulus() == 1,
        mul64(x, c) == mul64(y, c),
    ensures
        x == y,
{
    lemma_mul_by_unit_cancels(x, c, c_inv);
    lemma_mul_by_unit_cancels(y, c, c_inv);
}

proof fn lemma_xorshift30_injective(x: u64, y: u64)
    by (bit_vector)
    requires
        x ^ (x >> 30u64) == y ^ (y >> 30u64),
    ensures
        x == y,
{
}

proof fn lemma_xorshift27_injective(x: u64, y: u64)
    by (bit_vector)
    requires
        x ^ (x >> 27u64) == y ^ (y >> 27u64),
    ensures
        x == y,
{
}

proof fn lemma_xorshift31_injective(x: u64, y: u64)
    by (bit_vector)
    requires
        x ^ (x >> 31u64) == y ^ (y >> 31u64),
    ensures
        x == y,
{
}

proof fn lemma_xor_injective(s: u64, x: u64, y: u64)
    by (bit_vector)
    requires
        s ^ x == s ^ y,
    ensures
        x == y,
{
}

proof fn lemma_xor_injective_left(x: u64, y: u64, s: u64)
    by (bit_vector)
    requires
        x ^ s == y ^ s,
    ensures
        x == y,
{
}

/// The finalizer is a bijection on `u64`: it maps distinct states to
/// distinct values.
pub proof fn lemma_mix_injective(x: u64, y: u64)
    requires
        mix_spec(x) == mix_spec(y),
    ensures
        x == y,
{
    reveal(mix_spec);
    let ax = mul64(x ^ (x >> 30u64), MIX1);
    let ay = mul64(y ^ (y >> 30u64), MIX1);
    let bx = mul64(ax ^ (ax >> 27u64), MIX2);
    let by = mul64(ay ^ (ay >> 27u64), MIX2);
    lemma_xorshift31_injective(bx, by);
    assert((MIX2 as int * MIX2_INV as int) % modulus() == 1);
    lemma_mul_injective(ax ^ (ax >> 27u64), ay ^ (ay >> 27u64), MIX2, MIX2_INV);
    lemma_xorshift27_injective(ax, ay);
    assert((MIX1 as int * MIX1_INV as int) % modulus() == 1);
    lemma_mul_injective(x ^ (x >> 30u64), y ^ (y >> 30u64), MIX1, MIX1_INV);
    lemma_xorshift30_injective(x, y);
}

/// Advancing the state is a bijection.
pub proof fn lemma_advance_injective(x: u64, y: u64)
    requires
        advance(x) == advance(y),
    ensures
        x == y,
{
    let m = modulus();
    let g = GAMMA as int;
    if x != y {
        assert((x as int + g) % m == (y as int + g) % m);
        if x as int + g < m {
            vstd::arithmetic::div_mod::lemma_small_mod((x as int + g) as nat, m as nat);
        } else {
            vstd::arithmetic::div_mod::lemma_mod_sub_multiples_vanish(x as int + g, m);
            vstd::arithmetic::div_mod::lemma_small_mod((x as int + g - m) as nat, m as nat);
        }
        if y as int + g < m {
            vstd::arithmetic::div_mod::lemma_small_mod((y as int + g) as nat, m as nat);
        } else {
            vstd::arithmetic::div_mod::lemma_mod_sub_multiples_vanish(y as int + g, m);
            vstd::arithmetic::div_mod::lemma_small_mod((y as int + g - m) as nat, m as nat);
        }
    }
}

/// Law: distinct states draw distinct values, so streams started from
/// different seeds differ from their very first draw.
pub proof fn lemma_distinct_states_draw_distinct_values(x: u64, y: u64)
    requires
        x != y,
    ensures
        draw(x) != draw(y),
{
    if draw(x) == draw(y) {
        lemma_mix_injective(advance(x), advance(y));
        lemma_advance_injective(x, y);
    }
}

/// One mixing round of [`derive_spec`] loses nothing when either its state or
/// its coordinate is held fixed.
proof fn lemma_round_injective(s: u64, x: u64, s2: u64, x2: u64, k: u64, k_inv: u64)
    requires
        (k as int * k_inv as int) % modulus() == 1,
        mix_spec(s ^ mul64(x, k)) == mix_spec(s2 ^ mul64(x2, k)),
        s == s2 || x == x2,
    ensures
        s == s2,
        x == x2,
{
    lemma_mix_injective(s ^ mul64(x, k), s2 ^ mul64(x2, k));
    if x == x2 {
        lemma_xor_injective_left(s, s2, mul64(x, k));
    } else {
        lemma_xor_injective(s, mul64(x, k), mul64(x2, k));
        lemma_mul_injective(x, x2, k, k_inv);
    }
}

/// Law: a positional stream changes whenever any single one of its four
/// coordinates changes, the others held fixed.
pub proof fn lemma_derive_injective_in_each_coordinate(
    seed: u64,
    a: u64,
    b: u64,
    c: u64,
    seed2: u64,
    a2: u64,
    b2: u64,
    c2: u64,
)
    requires
        derive_spec(seed, a, b, c) == derive_spec(seed2, a2, b2, c2),
        (seed == seed2 && a == a2 && b == b2) || (seed == seed2 && a == a2 && c == c2) || (
        seed == seed2 && b == b2 && c == c2) || (a == a2 && b == b2 && c == c2),
    ensures
        seed == seed2 && a == a2 && b == b2 && c == c2,
{
    let s1 = mix_spec(seed ^ mul64(a, GAMMA));
    let s1b = mix_spec(seed2 ^ mul64(a2, GAMMA));
    let s2 = mix_spec(s1 ^ mul64(b, MIX1));
    let s2b = mix_spec(s1b ^ mul64(b2, MIX1));
    assert((GAMMA as int * GAMMA_INV as int) % modulus() == 1);
    assert((MIX1 as int * MIX1_INV as int) % modulus() == 1);
    assert((MIX2 as int * MIX2_INV as int) % modulus() == 1);
    if seed == seed2 && a == a2 {
        assert(s1 == s1b);
        if b == b2 {
            assert(s2 == s2b);
        }
    }
    lemma_round_injective(s2, c, s2b, c2, MIX2, MIX2_INV);
    lemma_round_injective(s1, b, s1b, b2, MIX1, MIX1_INV);
    lemma_round_injective(seed, a, seed2, a2, GAMMA, GAMMA_INV);
}

/// Law: same seed, same stream. A generator made by [`Rng::new`] from `seed`
/// sits, after `i` draws, at `state_after(seed, i)` (each [`Rng::next_u64`]
/// advances the state once), and its next draw is the `i`-th value of
/// `stream(seed, n)` for every `n` beyond `i`: the value depends on the seed
/// and the draw's position alone, so two generators from one seed agree on
/// every draw, however many are taken.
pub proof fn lemma_same_seed_same_stream(seed: u64, i: nat, n: nat)
    requires
        i < n,
    ensures
        stream(seed, n).len() == n,
        stream(seed, n)[i as int] == draw(state_after(seed, i)),
        advance(state_after(seed, i)) == state_after(seed, i + 1),
    decreases n,
{
    lemma_stream_len(seed, n);
    if i + 1 < n {
        lemma_same_seed_same_stream(seed, i, (n - 1) as nat);
        lemma_stream_len(seed, (n - 1) as nat);
    }
}

proof fn lemma_stream_len(seed: u64, n: nat)
    ensures
        stream(seed, n).len() == n,
    decreases n,
{
    if n > 0 {
        lemma_stream_len(seed, (n - 1) as nat);
    }
}

} // verus!
