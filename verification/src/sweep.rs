//! Theory 6: fine-tuning, and how many laws a sweep actually visited.
//!
//! A sweep varies the rule's constants over a grid. Only `k / 8` densities
//! occur in a Moore neighbourhood, so many settings denote the same law, and
//! a continuous sweep is coarser than it looks. Each setting is reduced (in
//! floating point, by the program around this library) to the signature of
//! the law it denotes and whether it was productive. Counting the distinct
//! laws, and the productive ones among them, is exact and is here: a law
//! counts as productive if any setting denoting it was.

use std::collections::{BTreeMap, BTreeSet};
use vstd::prelude::*;

verus! {

/// Some setting denotes law `law`.
pub open spec fn denotes(settings: Seq<(u32, bool)>, law: u32) -> bool {
    exists|i: int| 0 <= i < settings.len() && (#[trigger] settings[i]).0 == law
}

/// Some setting denoting law `law` was productive.
pub open spec fn found_productive(settings: Seq<(u32, bool)>, law: u32) -> bool {
    exists|i: int| 0 <= i < settings.len() && (#[trigger] settings[i]) == (law, true)
}

/// The laws a sweep visited.
pub open spec fn laws_of(settings: Seq<(u32, bool)>) -> Set<u32> {
    Set::new(|law: u32| denotes(settings, law))
}

/// The laws a sweep found productive.
pub open spec fn productive_laws_of(settings: Seq<(u32, bool)>) -> Set<u32> {
    Set::new(|law: u32| found_productive(settings, law))
}

/// How many distinct laws a sweep's settings denote, and how many of those
/// were productive under at least one setting.
pub fn count_laws(settings: &Vec<(u32, bool)>) -> (r: (usize, usize))
    ensures
        laws_of(settings@).finite(),
        productive_laws_of(settings@).finite(),
        r.0 == laws_of(settings@).len(),
        r.1 == productive_laws_of(settings@).len(),
        r.1 <= r.0,
{
    broadcast use vstd::std_specs::btree::group_btree_axioms;

    // Each law seen, and whether any setting denoting it was productive.
    let mut laws: BTreeMap<u32, bool> = BTreeMap::new();
    // The laws found productive.
    let mut productive: BTreeSet<u32> = BTreeSet::new();
    let mut k: usize = 0;
    while k < settings.len()
        invariant
            k <= settings@.len(),
            laws@.dom() == laws_of(settings@.take(k as int)),
            productive@ == productive_laws_of(settings@.take(k as int)),
            forall|law: u32|
                #[trigger] laws@.contains_key(law) ==> laws@[law] == found_productive(
                    settings@.take(k as int),
                    law,
                ),
        decreases settings@.len() - k,
    {
        let (s, p) = settings[k];
        let ghost before = settings@.take(k as int);
        let ghost after = settings@.take(k + 1);
        proof {
            assert(after =~= before.push((s, p)));
            assert forall|law: u32| denotes(after, law) == (denotes(before, law) || law == s) by {
                if denotes(after, law) {
                    let i = choose|i: int| 0 <= i < after.len() && (#[trigger] after[i]).0 == law;
                    if i < before.len() {
                        assert(after[i] == before[i]);
                    }
                }
                if denotes(before, law) {
                    let i = choose|i: int| 0 <= i < before.len() && (#[trigger] before[i]).0 == law;
                    assert(after[i] == before[i]);
                }
                if law == s {
                    assert(after[before.len() as int].0 == law);
                }
            }
            assert forall|law: u32|
                found_productive(after, law) == (found_productive(before, law) || (law == s
                    && p)) by {
                if found_productive(after, law) {
                    let i = choose|i: int| 0 <= i < after.len() && (#[trigger] after[i]) == (law, true);
                    if i < before.len() {
                        assert(after[i] == before[i]);
                    }
                }
                if found_productive(before, law) {
                    let i = choose|i: int|
                        0 <= i < before.len() && (#[trigger] before[i]) == (law, true);
                    assert(after[i] == before[i]);
                }
                if law == s && p {
                    assert(after[before.len() as int] == (law, true));
                }
            }
        }
        // A law counts as productive if any setting denoting it was.
        let so_far = match laws.get(&s) {
            Some(v) => *v,
            None => false,
        };
        laws.insert(s, so_far || p);
        if p {
            productive.insert(s);
        }
        proof {
            assert(laws@.dom() =~= laws_of(after));
            assert(productive@ =~= productive_laws_of(after));
        }
        k = k + 1;
    }
    proof {
        assert(settings@.take(settings@.len() as int) =~= settings@);
        assert(productive_laws_of(settings@).subset_of(laws_of(settings@))) by {
            assert forall|law: u32| productive_laws_of(settings@).contains(law) implies laws_of(
                settings@,
            ).contains(law) by {
                let i = choose|i: int|
                    0 <= i < settings@.len() && (#[trigger] settings@[i]) == (law, true);
                assert(settings@[i].0 == law);
            }
        }
        vstd::set_lib::lemma_set_subset_finite(laws_of(settings@), productive_laws_of(settings@));
        vstd::set_lib::lemma_len_subset(productive_laws_of(settings@), laws_of(settings@));
    }
    (laws.len(), productive.len())
}

} // verus!
