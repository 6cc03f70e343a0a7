//! Theory 1: limits as optimizations.
//!
//! Each toggle here is a physical limit that a creator might have written into
//! a universe to make it cheaper to run. Turning one off does not add a
//! feature; it *removes* an optimization and buys a more expensive, more
//! faithful universe.
//!
//! Proved here: putting a limit in force never raises a work dial, and the
//! coupling the model exposes — refining time without refining space raises
//! the speed of influence, and refining space alongside pays it back.

use vstd::prelude::*;
use vstd::string::StringExecFns;

verus! {

/// The four toggles. `true` means the limit is in force (the cheap universe).
#[derive(Clone, Copy, Debug, PartialEq, Eq, Structural)]
pub struct Constraints {
    /// Planck-style pixelation. Off: space is subdivided `subdivision` times
    /// per axis, so the same region costs `subdivision^2` more cells.
    pub discrete_space: bool,
    /// One atomic update per tick. Off: `substeps` sub-updates per tick.
    pub discrete_time: bool,
    /// Influence travels at most `capped_radius` cells per substep.
    /// Off: `uncapped_radius`, so each cell reads a far larger neighbourhood.
    pub speed_cap: bool,
    /// Regions are computed at full resolution only while observed.
    /// Off: every region is computed in full, every tick, observed or not.
    pub lazy_rendering: bool,
}

/// How many of the four limits are in force.
pub open spec fn limits_in_force(c: Constraints) -> int {
    (if c.discrete_space { 1int } else { 0int }) + (if c.discrete_time { 1int } else { 0int }) + (
    if c.speed_cap { 1int } else { 0int }) + (if c.lazy_rendering { 1int } else { 0int })
}

/// Every limit `c` has in force, `d` has in force too.
pub open spec fn at_least_as_limited(d: Constraints, c: Constraints) -> bool {
    &&& c.discrete_space ==> d.discrete_space
    &&& c.discrete_time ==> d.discrete_time
    &&& c.speed_cap ==> d.speed_cap
    &&& c.lazy_rendering ==> d.lazy_rendering
}

/// All limits in force.
pub open spec fn every_limit() -> Constraints {
    Constraints { discrete_space: true, discrete_time: true, speed_cap: true, lazy_rendering: true }
}

/// No limits.
pub open spec fn no_limit() -> Constraints {
    Constraints {
        discrete_space: false,
        discrete_time: false,
        speed_cap: false,
        lazy_rendering: false,
    }
}

/// The universe with only limit `i` in force, in the order space, time,
/// speed, lazy.
pub open spec fn single(i: int) -> Constraints {
    Constraints {
        discrete_space: i == 0,
        discrete_time: i == 1,
        speed_cap: i == 2,
        lazy_rendering: i == 3,
    }
}

/// Names of the limits in force, in a fixed order.
pub open spec fn limit_names(c: Constraints) -> Seq<Seq<char>> {
    (if c.discrete_space { seq!["space"@] } else { Seq::empty() }) + (if c.discrete_time {
        seq!["time"@]
    } else {
        Seq::empty()
    }) + (if c.speed_cap { seq!["speed"@] } else { Seq::empty() }) + (if c.lazy_rendering {
        seq!["lazy"@]
    } else {
        Seq::empty()
    })
}

/// Parts joined with `+` between them.
pub open spec fn join_plus(parts: Seq<Seq<char>>) -> Seq<char>
    decreases parts.len(),
{
    if parts.len() == 0 {
        Seq::empty()
    } else if parts.len() == 1 {
        parts[0]
    } else {
        join_plus(parts.drop_last()) + "+"@ + parts.last()
    }
}

/// The label of a setting.
pub open spec fn label_spec(c: Constraints) -> Seq<char> {
    if c == every_limit() {
        "all_on"@
    } else if c == no_limit() {
        "all_off"@
    } else if limit_names(c).len() == 0 {
        "none"@
    } else {
        join_plus(limit_names(c))
    }
}

impl Constraints {
    /// All limits in force: the cheapest universe the model can build.
    pub fn all_on() -> (c: Constraints)
        ensures
            c == every_limit(),
    {
        Constraints {
            discrete_space: true,
            discrete_time: true,
            speed_cap: true,
            lazy_rendering: true,
        }
    }

    /// No limits: the expensive, maximally faithful universe. This is the
    /// reference the constrained runs are judged against.
    pub fn all_off() -> (c: Constraints)
        ensures
            c == no_limit(),
    {
        Constraints {
            discrete_space: false,
            discrete_time: false,
            speed_cap: false,
            lazy_rendering: false,
        }
    }

    /// A short stable label used in filenames and report rows.
    pub fn label(&self) -> (r: String)
        ensures
            r@ == label_spec(*self),
    {
        if *self == Self::all_on() {
            return String::from_str("all_on");
        }
        if *self == Self::all_off() {
            return String::from_str("all_off");
        }
        let mut out = String::new();
        let mut any = false;
        let ghost mut parts: Seq<Seq<char>> = Seq::empty();
        if self.discrete_space {
            push_part(&mut out, any, Ghost(parts), "space");
            any = true;
            proof {
                parts = parts.push("space"@);
            }
        }
        if self.discrete_time {
            push_part(&mut out, any, Ghost(parts), "time");
            any = true;
            proof {
                parts = parts.push("time"@);
            }
        }
        if self.speed_cap {
            push_part(&mut out, any, Ghost(parts), "speed");
            any = true;
            proof {
                parts = parts.push("speed"@);
            }
        }
        if self.lazy_rendering {
            push_part(&mut out, any, Ghost(parts), "lazy");
            any = true;
            proof {
                parts = parts.push("lazy"@);
            }
        }
        assert(parts =~= limit_names(*self));
        if !any {
            String::from_str("none")
        } else {
            out
        }
    }

    /// Every single-constraint universe: exactly one limit in force.
    pub fn singles() -> (r: Vec<Constraints>)
        ensures
            r.len() == 4,
            forall|i: int| 0 <= i < 4 ==> r[i] == single(i),
            forall|i: int| 0 <= i < 4 ==> limits_in_force(#[trigger] r[i]) == 1,
    {
        let mut out: Vec<Constraints> = Vec::new();
        let mut i: usize = 0;
        while i < 4
            invariant
                i <= 4,
                out.len() == i,
                forall|k: int| 0 <= k < i ==> out[k] == single(k),
            decreases 4 - i,
        {
            let mut c = Self::all_off();
            match i {
                0 => c.discrete_space = true,
                1 => c.discrete_time = true,
                2 => c.speed_cap = true,
                _ => c.lazy_rendering = true,
            }
            out.push(c);
            i = i + 1;
        }
        assert forall|i: int| 0 <= i < 4 implies limits_in_force(#[trigger] out[i]) == 1 by {
            assert(out[i] == single(i));
            if i == 0 {
            } else if i == 1 {
            } else if i == 2 {
            } else {
            }
        }
        out
    }
}

/// Appends one limit name, with a `+` if something came before it.
fn push_part(out: &mut String, any: bool, Ghost(parts): Ghost<Seq<Seq<char>>>, name: &str)
    requires
        old(out)@ == join_plus(parts),
        any == (parts.len() > 0),
    ensures
        final(out)@ == join_plus(parts.push(name@)),
{
    if any {
        out.append("+");
    }
    out.append(name);
    proof {
        assert(parts.push(name@).drop_last() =~= parts);
    }
}

/// Length, first, last and third character of the label of each of the
/// sixteen settings; no two settings share all four.
spec fn label_signature(c: Constraints) -> (int, char, char, char) {
    if c.discrete_space {
        if c.discrete_time {
            if c.speed_cap {
                if c.lazy_rendering {
                    (6, 'a', 'n', 'l')
                } else {
                    (16, 's', 'd', 'a')
                }
            } else {
                if c.lazy_rendering {
                    (15, 's', 'y', 'a')
                } else {
                    (10, 's', 'e', 'a')
                }
            }
        } else {
            if c.speed_cap {
                if c.lazy_rendering {
                    (16, 's', 'y', 'a')
                } else {
                    (11, 's', 'd', 'a')
                }
            } else {
                if c.lazy_rendering {
                    (10, 's', 'y', 'a')
                } else {
                    (5, 's', 'e', 'a')
                }
            }
        }
    } else {
        if c.discrete_time {
            if c.speed_cap {
                if c.lazy_rendering {
                    (15, 't', 'y', 'm')
                } else {
                    (10, 't', 'd', 'm')
                }
            } else {
                if c.lazy_rendering {
                    (9, 't', 'y', 'm')
                } else {
                    (4, 't', 'e', 'm')
                }
            }
        } else {
            if c.speed_cap {
                if c.lazy_rendering {
                    (10, 's', 'y', 'e')
                } else {
                    (5, 's', 'd', 'e')
                }
            } else {
                if c.lazy_rendering {
                    (4, 'l', 'y', 'z')
                } else {
                    (7, 'a', 'f', 'l')
                }
            }
        }
    }
}

proof fn lemma_label_signature(c: Constraints)
    ensures
        label_spec(c).len() >= 4,
        (label_spec(c).len() as int, label_spec(c)[0], label_spec(c).last(), label_spec(c)[2])
            == label_signature(c),
{
    reveal_strlit("all_on");
    reveal_strlit("all_off");
    reveal_strlit("space");
    reveal_strlit("time");
    reveal_strlit("speed");
    reveal_strlit("lazy");
    reveal_strlit("+");
    reveal_with_fuel(join_plus, 4);
    let n = limit_names(c);
    if c.discrete_space {
        if c.discrete_time {
            if c.speed_cap {
                if c.lazy_rendering {
                } else {
                    assert(n =~= seq!["space"@, "time"@, "speed"@]);
                }
            } else {
                if c.lazy_rendering {
                    assert(n =~= seq!["space"@, "time"@, "lazy"@]);
                } else {
                    assert(n =~= seq!["space"@, "time"@]);
                }
            }
        } else {
            if c.speed_cap {
                if c.lazy_rendering {
                    assert(n =~= seq!["space"@, "speed"@, "lazy"@]);
                } else {
                    assert(n =~= seq!["space"@, "speed"@]);
                }
            } else {
                if c.lazy_rendering {
                    assert(n =~= seq!["space"@, "lazy"@]);
                } else {
                    assert(n =~= seq!["space"@]);
                }
            }
        }
    } else {
        if c.discrete_time {
            if c.speed_cap {
                if c.lazy_rendering {
                    assert(n =~= seq!["time"@, "speed"@, "lazy"@]);
                } else {
                    assert(n =~= seq!["time"@, "speed"@]);
                }
            } else {
                if c.lazy_rendering {
                    assert(n =~= seq!["time"@, "lazy"@]);
                } else {
                    assert(n =~= seq!["time"@]);
                }
            }
        } else {
            if c.speed_cap {
                if c.lazy_rendering {
                    assert(n =~= seq!["speed"@, "lazy"@]);
                } else {
                    assert(n =~= seq!["speed"@]);
                }
            } else {
                if c.lazy_rendering {
                    assert(n =~= seq!["lazy"@]);
                } else {
                }
            }
        }
    }
}

/// Law: a label names its setting. Different settings of the four limits
/// get different labels, and no setting is labelled "none".
pub proof fn lemma_labels_name_their_setting(c1: Constraints, c2: Constraints)
    ensures
        label_spec(c1) == label_spec(c2) ==> c1 == c2,
        label_spec(c1) != "none"@,
{
    lemma_label_signature(c1);
    lemma_label_signature(c2);
    reveal_strlit("none");
    if label_spec(c1) == "none"@ {
        assert(label_spec(c1)[0] == 'n');
    }
}

/// The magnitudes behind the toggles. These are the creator's dials; the
/// toggles only choose which end of each dial is used.
#[derive(Clone, Copy, Debug, PartialEq, Eq, Structural)]
pub struct Params {
    /// Cells per base cell per axis when `discrete_space` is off.
    pub subdivision: usize,
    /// Physics substeps per tick when `discrete_time` is off.
    pub substeps: usize,
    /// Influence radius in cells when `speed_cap` is on.
    pub capped_radius: usize,
    /// Influence radius in cells when `speed_cap` is off.
    pub uncapped_radius: usize,
    /// Edge length, in base cells, of a lazily rendered region.
    pub block_size: usize,
}

impl Params {
    /// What a runnable configuration demands of the dials.
    pub open spec fn valid(&self) -> bool {
        &&& self.subdivision >= 1
        &&& self.substeps >= 1
        &&& self.block_size >= 1
        &&& 1 <= self.capped_radius <= self.uncapped_radius
    }
}

impl Default for Params {
    fn default() -> (p: Self)
        ensures
            p == (Params {
                subdivision: 2,
                substeps: 2,
                capped_radius: 1,
                uncapped_radius: 3,
                block_size: 16,
            }),
    {
        Params {
            subdivision: 2,
            substeps: 2,
            capped_radius: 1,
            uncapped_radius: 3,
            block_size: 16,
        }
    }
}

/// What the toggles and dials work out to for one run.
///
/// Influence per *tick* is `radius * substeps` cells, and a cell is
/// `1 / subdivision` of a base length. So refining time without refining space
/// raises the physical speed of influence: discrete time and the speed cap are
/// not independent limits.
#[derive(Clone, Copy, Debug, PartialEq, Eq, Structural)]
pub struct Resolved {
    pub subdivision: usize,
    pub substeps: usize,
    pub radius: usize,
    pub block_size: usize,
    pub lazy: bool,
}

/// The dials a setting of the toggles resolves to.
pub open spec fn resolve(c: Constraints, p: Params) -> Resolved {
    let subdivision = if c.discrete_space { 1 } else { p.subdivision };
    Resolved {
        subdivision,
        substeps: if c.discrete_time { 1 } else { p.substeps },
        radius: if c.speed_cap { p.capped_radius } else { p.uncapped_radius },
        block_size: (p.block_size * subdivision) as usize,
        lazy: c.lazy_rendering,
    }
}

impl Resolved {
    pub fn new(c: &Constraints, p: &Params) -> (r: Self)
        requires
            !c.discrete_space ==> p.block_size * p.subdivision <= usize::MAX,
        ensures
            r == resolve(*c, *p),
            r.lazy == c.lazy_rendering,
            r.subdivision == (if c.discrete_space { 1 } else { p.subdivision }),
            r.substeps == (if c.discrete_time { 1 } else { p.substeps }),
            r.radius == (if c.speed_cap { p.capped_radius } else { p.uncapped_radius }),
            r.block_size == p.block_size * r.subdivision,
    {
        let subdivision = if c.discrete_space { 1 } else { p.subdivision };
        proof {
            assert(p.block_size * 1 == p.block_size);
        }
        Resolved {
            subdivision,
            substeps: if c.discrete_time { 1 } else { p.substeps },
            radius: if c.speed_cap {
                p.capped_radius
            } else {
                p.uncapped_radius
            },
            block_size: p.block_size * subdivision,
            lazy: c.lazy_rendering,
        }
    }
}

/// Law: each toggle governs its own dial and nothing else. Lazy rendering is
/// in force exactly when its toggle is on; discrete space alone picks the
/// subdivision (and with it the block size), discrete time alone the
/// substeps, and the speed cap alone the radius, whatever the other limits.
pub proof fn lemma_each_toggle_sets_its_own_dial(c: Constraints, p: Params)
    requires
        !c.discrete_space ==> p.block_size * p.subdivision <= usize::MAX,
    ensures
        resolve(c, p).lazy == c.lazy_rendering,
        resolve(c, p).subdivision == (if c.discrete_space { 1 } else { p.subdivision }),
        resolve(c, p).substeps == (if c.discrete_time { 1 } else { p.substeps }),
        resolve(c, p).radius == (if c.speed_cap { p.capped_radius } else { p.uncapped_radius }),
        resolve(c, p).block_size == p.block_size * resolve(c, p).subdivision,
{
    assert(p.block_size * 1 == p.block_size);
}

/// Influence speed in base cell lengths per tick, `radius * substeps /
/// subdivision`, compared without division: `faster(a, b)` says `a`'s
/// influence outruns `b`'s.
pub open spec fn faster(a: Resolved, b: Resolved) -> bool {
    a.radius * a.substeps * b.subdivision > b.radius * b.substeps * a.subdivision
}

/// Law: putting limits in force never raises a work dial. A setting with at
/// least the limits of another resolves to no finer space, no more substeps
/// and no wider neighbourhood. In particular every limit in force is the
/// cheapest setting of all.
pub proof fn lemma_limits_never_raise_the_dials(d: Constraints, c: Constraints, p: Params)
    requires
        p.valid(),
        at_least_as_limited(d, c),
    ensures
        resolve(d, p).subdivision <= resolve(c, p).subdivision,
        resolve(d, p).substeps <= resolve(c, p).substeps,
        resolve(d, p).radius <= resolve(c, p).radius,
{
}

/// Law: the coupling between time and the speed of light. With space
/// discrete, relaxing discrete time raises the speed of influence whenever
/// there is more than one substep; refining space alongside it never raises
/// it further.
pub proof fn lemma_time_and_speed_are_coupled(c: Constraints, p: Params)
    requires
        p.valid(),
        p.substeps > 1,
        c.discrete_space,
        c.discrete_time,
    ensures
        faster(
            resolve(Constraints { discrete_time: false, ..c }, p),
            resolve(c, p),
        ),
        !faster(
            resolve(Constraints { discrete_time: false, discrete_space: false, ..c }, p),
            resolve(Constraints { discrete_time: false, ..c }, p),
        ),
{
    let base = resolve(c, p);
    let ft = resolve(Constraints { discrete_time: false, ..c }, p);
    let both = resolve(Constraints { discrete_time: false, discrete_space: false, ..c }, p);
    let r = base.radius as int;
    assert(r >= 1);
    assert(r * p.substeps * 1 > r * 1 * 1) by (nonlinear_arith)
        requires
            r >= 1,
            p.substeps > 1,
    ;
    assert(r * p.substeps * 1 <= r * p.substeps * p.subdivision) by (nonlinear_arith)
        requires
            r >= 1,
            p.substeps >= 1,
            p.subdivision >= 1,
    ;
}

} // verus!
