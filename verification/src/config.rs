//! The creator's input file: the parts of it that are exact.
//!
//! A config plus a seed fully determines a universe. The file itself is read
//! and checked by the program around this library, because it also holds the
//! floating-point constants of the laws.

use vstd::prelude::*;
use vstd::string::StringExecFns;
use crate::constraints::Params;
use crate::observer::Probe;

verus! {

/// How a run is reported.
#[derive(Clone, Debug)]
pub struct ReportCfg {
    /// Edge of the macro grid used for cross-run comparison: the scale at
    /// which an outside observer notices anything at all.
    pub macro_grid: usize,
    pub out_dir: String,
}

impl Default for ReportCfg {
    fn default() -> (r: Self)
        ensures
            r.macro_grid == 16,
            r.out_dir@ == "out"@,
    {
        ReportCfg { macro_grid: 16, out_dir: String::from_str("out") }
    }
}

// ---------------------------------------------------------------------------
// Numbers in messages.
// ---------------------------------------------------------------------------

pub open spec fn digit_char(d: nat) -> char {
    ('0' as int + d) as char
}

/// A number written in decimal, most significant digit first.
pub open spec fn decimal_text_spec(n: nat) -> Seq<char>
    decreases n,
{
    if n < 10 {
        seq![digit_char(n)]
    } else {
        decimal_text_spec(n / 10).push(digit_char(n % 10))
    }
}

fn digit_text(d: usize) -> (r: &'static str)
    requires
        d < 10,
    ensures
        r@ == seq![digit_char(d as nat)],
{
    proof {
        reveal_strlit("0");
        reveal_strlit("1");
        reveal_strlit("2");
        reveal_strlit("3");
        reveal_strlit("4");
        reveal_strlit("5");
        reveal_strlit("6");
        reveal_strlit("7");
        reveal_strlit("8");
        reveal_strlit("9");
    }
    match d {
        0 => "0",
        1 => "1",
        2 => "2",
        3 => "3",
        4 => "4",
        5 => "5",
        6 => "6",
        7 => "7",
        8 => "8",
        _ => "9",
    }
}

/// A number written in decimal, as `{}` would write it.
pub fn decimal_text(n: usize) -> (r: String)
    ensures
        r@ == decimal_text_spec(n as nat),
    decreases n,
{
    if n < 10 {
        String::from_str(digit_text(n))
    } else {
        let mut s = decimal_text(n / 10);
        s.append(digit_text(n % 10));
        s
    }
}

/// Law: a number written by [`decimal_text`] reads back as itself through the
/// command line's number reader.
pub proof fn lemma_decimal_text_reads_back(n: nat, max: nat)
    requires
        n <= max,
    ensures
        crate::cli::decimal(decimal_text_spec(n), max) == Some(n),
{
    lemma_decimal_text_digits(n);
    let t = decimal_text_spec(n);
    assert(crate::cli::unsigned_digits(t) == t) by {
        assert(crate::cli::is_digit(t[0]));
    }
}

proof fn lemma_decimal_text_digits(n: nat)
    ensures
        decimal_text_spec(n).len() > 0,
        forall|i: int|
            0 <= i < decimal_text_spec(n).len() ==> crate::cli::is_digit(
                #[trigger] decimal_text_spec(n)[i],
            ),
        crate::cli::digits_value(decimal_text_spec(n)) == n,
    decreases n,
{
    let t = decimal_text_spec(n);
    if n < 10 {
        assert(t.drop_last() =~= Seq::<char>::empty());
        assert(crate::cli::digits_value(t.drop_last()) == 0);
        assert(t.last() == digit_char(n));
    } else {
        lemma_decimal_text_digits(n / 10);
        let head = decimal_text_spec(n / 10);
        assert(t.drop_last() =~= head);
        assert(t.last() == digit_char(n % 10));
        assert(n == (n / 10) * 10 + n % 10);
        assert(crate::cli::digits_value(t) == crate::cli::digits_value(head) * 10 + n % 10);
        assert forall|i: int| 0 <= i < t.len() implies crate::cli::is_digit(#[trigger] t[i]) by {
            if i < t.len() - 1 {
                assert(t[i] == head[i]);
            }
        }
    }
}

// ---------------------------------------------------------------------------
// What a runnable config demands.
// ---------------------------------------------------------------------------

/// What is wrong with a world's extent, if anything.
pub open spec fn extent_problem(width: usize, height: usize, ticks: u64) -> Option<Seq<char>> {
    if width == 0 || height == 0 {
        Some("world.width and world.height must be greater than 0"@)
    } else if ticks == 0 {
        Some("world.ticks must be greater than 0"@)
    } else {
        None
    }
}

/// What is wrong with the dials, the report grid or the probe, if anything,
/// checked in the order a reader of the file would want to hear about them.
pub open spec fn dials_problem(
    params: Params,
    macro_grid: usize,
    observer: Probe,
    width: usize,
    height: usize,
) -> Option<Seq<char>> {
    if params.subdivision == 0 || params.substeps == 0 {
        Some("params.subdivision and params.substeps must be at least 1"@)
    } else if params.block_size == 0 {
        Some("params.block_size must be at least 1"@)
    } else if params.capped_radius == 0 || params.uncapped_radius == 0 {
        Some("influence radii must be at least 1 cell"@)
    } else if params.capped_radius > params.uncapped_radius {
        Some(
            "params.capped_radius ("@ + decimal_text_spec(params.capped_radius as nat)
                + ") exceeds params.uncapped_radius ("@ + decimal_text_spec(
                params.uncapped_radius as nat,
            ) + "): the speed cap would make the universe more expensive, not less"@,
        )
    } else if macro_grid == 0 {
        Some("report.macro_grid must be at least 1"@)
    } else if observer.width == 0 || observer.height == 0 {
        Some(
            "observer.width and observer.height must be greater than 0: a probe that observes nothing never renders anything"@,
        )
    } else if observer.x >= width || observer.y >= height {
        Some("observer origin lies outside the world"@)
    } else {
        None
    }
}

/// Law: a run's dials pass exactly when the dials are valid, the report grid
/// and the probe are not empty, and the probe's origin lies inside the world.
/// The probe's extent is never held against the world's: a probe may run past
/// the world's edge and wrap across the seam.
pub proof fn lemma_only_the_probe_origin_must_lie_inside(
    params: Params,
    macro_grid: usize,
    observer: Probe,
    width: usize,
    height: usize,
)
    ensures
        dials_problem(params, macro_grid, observer, width, height) is None <==> params.valid()
            && macro_grid >= 1 && observer.width >= 1 && observer.height >= 1 && observer.x
            < width && observer.y < height,
{
}

/// The check's outcome says exactly what the problem says.
pub open spec fn reports(r: Result<(), String>, problem: Option<Seq<char>>) -> bool {
    match problem {
        None => r is Ok,
        Some(m) => r matches Err(e) && e@ == m,
    }
}

/// Reject a world with no extent or no history, with a message that names
/// the field rather than the symptom.
pub fn check_extent(width: usize, height: usize, ticks: u64) -> (r: Result<(), String>)
    ensures
        reports(r, extent_problem(width, height, ticks)),
{
    if width == 0 || height == 0 {
        return Err(String::from_str("world.width and world.height must be greater than 0"));
    }
    if ticks == 0 {
        return Err(String::from_str("world.ticks must be greater than 0"));
    }
    Ok(())
}

/// Reject dials, a report grid or a probe that would produce a meaningless
/// run, with a message that names the field rather than the symptom.
pub fn check_dials(
    params: &Params,
    macro_grid: usize,
    observer: &Probe,
    width: usize,
    height: usize,
) -> (r: Result<(), String>)
    ensures
        reports(r, dials_problem(*params, macro_grid, *observer, width, height)),
        r is Ok ==> params.valid(),
        r is Ok <==> params.valid() && macro_grid >= 1 && observer.width >= 1 && observer.height
            >= 1 && observer.x < width && observer.y < height,
{
    if params.subdivision == 0 || params.substeps == 0 {
        return Err(
            String::from_str("params.subdivision and params.substeps must be at least 1"),
        );
    }
    if params.block_size == 0 {
        return Err(String::from_str("params.block_size must be at least 1"));
    }
    if params.capped_radius == 0 || params.uncapped_radius == 0 {
        return Err(String::from_str("influence radii must be at least 1 cell"));
    }
    if params.capped_radius > params.uncapped_radius {
        let mut m = String::from_str("params.capped_radius (");
        let capped = decimal_text(params.capped_radius);
        m.append(capped.as_str());
        m.append(") exceeds params.uncapped_radius (");
        let uncapped = decimal_text(params.uncapped_radius);
        m.append(uncapped.as_str());
        m.append("): the speed cap would make the universe more expensive, not less");
        return Err(m);
    }
    if macro_grid == 0 {
        return Err(String::from_str("report.macro_grid must be at least 1"));
    }
    if observer.width == 0 || observer.height == 0 {
        return Err(
            String::from_str(
                "observer.width and observer.height must be greater than 0: a probe that observes nothing never renders anything",
            ),
        );
    }
    if observer.x >= width || observer.y >= height {
        return Err(String::from_str("observer origin lies outside the world"));
    }
    Ok(())
}

} // verus!
