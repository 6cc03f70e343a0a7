//! Theory 5: bootloader life, and the loop it closes.
//!
//! A layer's emergent structures drive what crosses its horizon; what crosses
//! is all the next layer ever receives; and that is what its universe is
//! seeded from. The child is booted from inside the parent, through a channel
//! neither end can see through.
//!
//! Finding the structures at one instant is exact and lives in
//! [`crate::clusters`]; following them through time by their centroids is
//! floating-point work and runs in the program around this library. Deriving
//! the child's seed from what crossed is exact, and is here.

use vstd::prelude::*;
use crate::pipe::Message;
use crate::rng::{Rng, derive_spec, draw};

verus! {

/// The stream a boot seed is folded from before anything has crossed.
pub const BOOT_SALT: u64 = 0x1F1E_B00D_10AD_E123;

/// The folding state after the first `n` messages.
pub open spec fn boot_state(ms: Seq<Message>, n: nat) -> u64
    decreases n,
{
    if n == 0 {
        BOOT_SALT
    } else {
        let m = ms[n - 1];
        derive_spec(draw(boot_state(ms, (n - 1) as nat)), m.tick, m.digest, m.magnitude_bits)
    }
}

/// The seed a child is booted with, or `None` when nothing crossed.
pub open spec fn boot_seed_spec(ms: Seq<Message>) -> Option<u64> {
    if ms.len() == 0 {
        None
    } else {
        Some(draw(boot_state(ms, ms.len() as nat)))
    }
}

/// Derive a child universe's seed from what crossed the horizon.
///
/// Returns `None` when nothing cleared the logging threshold. A layer that
/// produces nothing worth transmitting boots nothing, and the chain stops —
/// a second limit on depth, independent of the budget.
pub fn boot_seed(messages: &[Message]) -> (r: Option<u64>)
    ensures
        r == boot_seed_spec(messages@),
{
    if messages.len() == 0 {
        return None;
    }
    let mut acc = Rng::new(BOOT_SALT);
    let mut k: usize = 0;
    while k < messages.len()
        invariant
            k <= messages@.len(),
            acc@ == boot_state(messages@, k as nat),
        decreases messages@.len() - k,
    {
        let m = messages[k];
        let seed = acc.next_u64();
        acc = Rng::derive(seed, m.tick, m.digest, m.magnitude_bits);
        k = k + 1;
    }
    Some(acc.next_u64())
}

/// `s` and `t` are the same message list but for one field of one message.
pub open spec fn one_field_differs(s: Seq<Message>, t: Seq<Message>) -> bool {
    &&& s.len() == t.len()
    &&& exists|k: int|
        0 <= k < s.len() && s[k] != t[k] && (s[k].tick == t[k].tick && s[k].digest == t[k].digest
            || s[k].tick == t[k].tick && s[k].magnitude_bits == t[k].magnitude_bits
            || s[k].digest == t[k].digest && s[k].magnitude_bits == t[k].magnitude_bits) && (
        forall|j: int| 0 <= j < s.len() && j != k ==> s[j] == t[j])
}

proof fn lemma_boot_agreeing_prefix(s: Seq<Message>, t: Seq<Message>, n: nat)
    requires
        n <= s.len(),
        n <= t.len(),
        forall|j: int| 0 <= j < n ==> s[j] == t[j],
    ensures
        boot_state(s, n) == boot_state(t, n),
    decreases n,
{
    if n > 0 {
        lemma_boot_agreeing_prefix(s, t, (n - 1) as nat);
    }
}

proof fn lemma_boot_differs_from(s: Seq<Message>, t: Seq<Message>, k: int, n: nat)
    requires
        n <= s.len(),
        s.len() == t.len(),
        0 <= k < n,
        s[k] != t[k],
        s[k].tick == t[k].tick && s[k].digest == t[k].digest || s[k].tick == t[k].tick
            && s[k].magnitude_bits == t[k].magnitude_bits || s[k].digest == t[k].digest
            && s[k].magnitude_bits == t[k].magnitude_bits,
        forall|j: int| 0 <= j < s.len() && j != k ==> s[j] == t[j],
    ensures
        boot_state(s, n) != boot_state(t, n),
    decreases n,
{
    let ps = boot_state(s, (n - 1) as nat);
    let pt = boot_state(t, (n - 1) as nat);
    let a = s[n - 1];
    let b = t[n - 1];
    if k == n - 1 {
        lemma_boot_agreeing_prefix(s, t, (n - 1) as nat);
        if boot_state(s, n) == boot_state(t, n) {
            crate::rng::lemma_derive_injective_in_each_coordinate(
                draw(ps),
                a.tick,
                a.digest,
                a.magnitude_bits,
                draw(pt),
                b.tick,
                b.digest,
                b.magnitude_bits,
            );
        }
    } else {
        lemma_boot_differs_from(s, t, k, (n - 1) as nat);
        if boot_state(s, n) == boot_state(t, n) {
            crate::rng::lemma_derive_injective_in_each_coordinate(
                draw(ps),
                a.tick,
                a.digest,
                a.magnitude_bits,
                draw(pt),
                b.tick,
                b.digest,
                b.magnitude_bits,
            );
            crate::rng::lemma_distinct_states_draw_distinct_values(ps, pt);
        }
    }
}

/// Law: the child's seed depends on what crossed. Two histories that differ
/// only in one field of one message — its tick, its magnitude or its digest —
/// boot different children; nothing crossing boots none.
pub proof fn lemma_child_seed_depends_on_what_crossed(s: Seq<Message>, t: Seq<Message>)
    requires
        one_field_differs(s, t),
    ensures
        boot_seed_spec(s) != boot_seed_spec(t),
        boot_seed_spec(Seq::<Message>::empty()) is None,
{
    let k = choose|k: int|
        0 <= k < s.len() && s[k] != t[k] && (s[k].tick == t[k].tick && s[k].digest == t[k].digest
            || s[k].tick == t[k].tick && s[k].magnitude_bits == t[k].magnitude_bits
            || s[k].digest == t[k].digest && s[k].magnitude_bits == t[k].magnitude_bits) && (
        forall|j: int| 0 <= j < s.len() && j != k ==> s[j] == t[j]);
    lemma_boot_differs_from(s, t, k, s.len() as nat);
    let a = boot_state(s, s.len() as nat);
    let b = boot_state(t, t.len() as nat);
    crate::rng::lemma_distinct_states_draw_distinct_values(a, b);
}

} // verus!
