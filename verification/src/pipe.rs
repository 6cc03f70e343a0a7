//! Theory 3: black holes as serializing pipes.
//!
//! A **pipe** is a one-way channel between layers. The child holds a
//! [`WriteEnd`], which has `write` and nothing else: no method returns
//! anything about the far side, so a child cannot learn whether anything
//! received it. The parent holds a [`ReadEnd`], which has no way to write.
//! [`WriteEnd::seal`] consumes the write end to produce the read end, and
//! there is no path back. Mutual blindness is a thing the type system refuses
//! to let you violate, not a convention in a comment.
//!
//! Proved here: what crosses is exactly what was written, in the order it was
//! written — the channel loses nothing and invents nothing. What a parent
//! *notices* of it is a matter of the logging threshold, which is a
//! floating-point comparison and lives with the rest of the floating-point
//! model.

use vstd::prelude::*;
use crate::rng::{Rng, derive_spec, draw};

verus! {

/// One serialized write. This is everything that crosses.
///
/// A faithful description of the horizon's contents would need one bit per
/// cell. This is a fixed few words regardless of how large the horizon is,
/// which is what makes the channel a bottleneck rather than a window.
#[derive(Clone, Copy, Debug, PartialEq, Eq, Structural)]
pub struct Message {
    /// When it crossed.
    pub tick: u64,
    /// How much crossed: occupancy of the horizon in `[0, 1]`, held as the
    /// IEEE-754 bit pattern of its `f64`.
    pub magnitude_bits: u64,
    /// The arrangement, folded to 64 bits.
    pub digest: u64,
}

/// The child's end. It can write, and it can do nothing else.
#[derive(Debug, Default)]
pub struct WriteEnd {
    messages: Vec<Message>,
}

impl View for WriteEnd {
    type V = Seq<Message>;

    closed spec fn view(&self) -> Seq<Message> {
        self.messages@
    }
}

impl WriteEnd {
    pub fn new() -> (w: Self)
        ensures
            w@ == Seq::<Message>::empty(),
    {
        WriteEnd { messages: Vec::new() }
    }

    /// Push one serialized write across. Returns nothing, on purpose.
    pub fn write(&mut self, m: Message)
        ensures
            final(self)@ == old(self)@.push(m),
    {
        self.messages.push(m);
    }

    /// Close the write surface and hand what crossed to the other side.
    ///
    /// Consumes the write end, so the same code cannot hold both halves.
    pub fn seal(self) -> (r: ReadEnd)
        ensures
            r@ == self@,
    {
        ReadEnd { messages: self.messages }
    }
}

/// The parent's end. It can read what arrived, and it cannot reach back.
#[derive(Debug, Clone)]
pub struct ReadEnd {
    messages: Vec<Message>,
}

impl View for ReadEnd {
    type V = Seq<Message>;

    closed spec fn view(&self) -> Seq<Message> {
        self.messages@
    }
}

impl ReadEnd {
    /// Everything that crossed, whether or not anyone noticed it.
    pub fn all(&self) -> (r: &[Message])
        ensures
            r@ == self@,
    {
        self.messages.as_slice()
    }
}

/// Salt of the stream a horizon's digest is folded from.
pub const HORIZON_SALT: u64 = 0x484F52495A4F4E;

/// One fold of the digest: the bit at `(col, row)` mixed into `acc`.
pub open spec fn digest_step(acc: u64, bit: bool, col: int, row: int) -> u64 {
    draw(derive_spec(acc, if bit { 1 } else { 0 }, col as u64, row as u64))
}

/// The digest after folding the first `n` bits of a horizon `width` cells
/// wide, read row by row.
pub open spec fn digest_over(tick: u64, bits: Seq<bool>, width: int, n: nat) -> u64
    decreases n,
{
    if n == 0 {
        draw(derive_spec(HORIZON_SALT, tick, 0, 0))
    } else {
        digest_step(
            digest_over(tick, bits, width, (n - 1) as nat),
            bits[n - 1],
            (n - 1) % width,
            (n - 1) / width,
        )
    }
}

/// How many of the first `n` bits are set.
pub open spec fn set_bits(bits: Seq<bool>, n: nat) -> nat
    decreases n,
{
    if n == 0 {
        0
    } else {
        set_bits(bits, (n - 1) as nat) + if bits[n - 1] { 1nat } else { 0nat }
    }
}

/// Fold a horizon's contents — one bit per cell, row by row, `width` cells to
/// a row — into what crosses: how many bits were set, and a digest of their
/// arrangement. Pure.
///
/// The digest is position-sensitive, so it depends on the arrangement and not
/// just the count, or "content structure was destroyed" would be vacuous.
pub fn fold_horizon(tick: u64, width: usize, bits: &Vec<bool>) -> (r: (u64, u64))
    requires
        width > 0,
        bits.len() <= u64::MAX,
    ensures
        r.0 == set_bits(bits@, bits.len() as nat),
        r.1 == digest_over(tick, bits@, width as int, bits.len() as nat),
{
    let mut acc = Rng::derive(HORIZON_SALT, tick, 0, 0).next_u64();
    let mut live: u64 = 0;
    let mut k: usize = 0;
    let mut row: usize = 0;
    let mut col: usize = 0;
    while k < bits.len()
        invariant
            width > 0,
            bits.len() <= u64::MAX,
            k <= bits.len(),
            row == k as int / width as int,
            col == k as int % width as int,
            live == set_bits(bits@, k as nat),
            live <= k,
            acc == digest_over(tick, bits@, width as int, k as nat),
        decreases bits.len() - k,
    {
        let bit: u64 = if bits[k] { 1 } else { 0 };
        live = live + bit;
        let mut step = Rng::derive(acc, bit, col as u64, row as u64);
        acc = step.next_u64();
        proof {
            vstd::arithmetic::div_mod::lemma_fundamental_div_mod(k as int, width as int);
            vstd::arithmetic::div_mod::lemma_mod_bound(k as int, width as int);
            if col + 1 < width {
                vstd::arithmetic::div_mod::lemma_fundamental_div_mod_converse(
                    k + 1,
                    width as int,
                    row as int,
                    col + 1,
                );
            } else {
                assert(k + 1 == (row + 1) * width + 0) by (nonlinear_arith)
                    requires
                        k == width * row + col,
                        col + 1 == width,
                ;
                vstd::arithmetic::div_mod::lemma_fundamental_div_mod_converse(
                    k + 1,
                    width as int,
                    row + 1,
                    0,
                );
            }
            assert(row <= k) by (nonlinear_arith)
                requires
                    k == width * row + col,
                    width > 0,
                    col >= 0,
            ;
        }
        k = k + 1;
        if col + 1 < width {
            col = col + 1;
        } else {
            col = 0;
            row = row + 1;
        }
    }
    (live, acc)
}

proof fn lemma_digest_agreeing_prefix(tick: u64, s: Seq<bool>, t: Seq<bool>, width: int, n: nat)
    requires
        n <= s.len(),
        n <= t.len(),
        forall|j: int| 0 <= j < n ==> s[j] == t[j],
    ensures
        digest_over(tick, s, width, n) == digest_over(tick, t, width, n),
    decreases n,
{
    if n > 0 {
        lemma_digest_agreeing_prefix(tick, s, t, width, (n - 1) as nat);
    }
}

proof fn lemma_digest_differs_from(tick: u64, s: Seq<bool>, t: Seq<bool>, width: int, k: int, n: nat)
    requires
        width > 0,
        n <= s.len(),
        s.len() == t.len(),
        0 <= k < n,
        s[k] != t[k],
        forall|j: int| 0 <= j < s.len() && j != k ==> s[j] == t[j],
    ensures
        digest_over(tick, s, width, n) != digest_over(tick, t, width, n),
    decreases n,
{
    let ps = digest_over(tick, s, width, (n - 1) as nat);
    let pt = digest_over(tick, t, width, (n - 1) as nat);
    let col = ((n - 1) % width) as u64;
    let row = ((n - 1) / width) as u64;
    let bs: u64 = if s[n - 1] { 1 } else { 0 };
    let bt: u64 = if t[n - 1] { 1 } else { 0 };
    if k == n - 1 {
        lemma_digest_agreeing_prefix(tick, s, t, width, (n - 1) as nat);
    } else {
        lemma_digest_differs_from(tick, s, t, width, k, (n - 1) as nat);
    }
    if digest_over(tick, s, width, n) == digest_over(tick, t, width, n) {
        if derive_spec(ps, bs, col, row) != derive_spec(pt, bt, col, row) {
            crate::rng::lemma_distinct_states_draw_distinct_values(
                derive_spec(ps, bs, col, row),
                derive_spec(pt, bt, col, row),
            );
        }
        crate::rng::lemma_derive_injective_in_each_coordinate(ps, bs, col, row, pt, bt, col, row);
    }
}

/// Law: the digest depends on the arrangement, not just the amount. Two
/// horizons that differ in a single cell — even with the same count of live
/// cells elsewhere — cross as different digests.
pub proof fn lemma_one_cell_moves_the_digest(tick: u64, s: Seq<bool>, t: Seq<bool>, width: int)
    requires
        width > 0,
        crate::space::one_entry_differs(s, t),
    ensures
        digest_over(tick, s, width, s.len() as nat) != digest_over(tick, t, width, t.len() as nat),
{
    let k = choose|k: int|
        0 <= k < s.len() && s[k] != t[k] && (forall|j: int|
            0 <= j < s.len() && j != k ==> s[j] == t[j]);
    lemma_digest_differs_from(tick, s, t, width, k, s.len() as nat);
}

} // verus!
