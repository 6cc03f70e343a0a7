//! The command line, parsed by hand.
//!
//! The dependency list is deliberately short, so arguments are read without a
//! parsing crate. What the parser accepts, and the exact message it gives for
//! everything it refuses, is stated below as a grammar over the argument list,
//! and [`parse`] is proved to follow it.

use vstd::prelude::*;
use vstd::string::{StrSliceExecFns, StringExecFns};

verus! {

/// The five experiments the program can run.
#[derive(Debug, Clone, Copy, PartialEq, Eq, Structural)]
pub enum Command {
    /// Theory 1: what the limits cost and what they changed.
    Run,
    /// Theory 2: how deep a chain of universes gets.
    Nest,
    /// Theory 3: what survives a one-way serializing channel.
    Pipe,
    /// Detection: which limits are findable from inside.
    Detect,
    /// Theory 6: how narrow the productive band of constants is.
    Sweep,
}

/// A parsed command line.
#[derive(Debug)]
pub struct Args {
    pub command: Command,
    /// Path of the universe definition.
    pub config: String,
    /// Where to write the report, if not the config's own choice.
    pub out: Option<String>,
    pub seed: Option<u64>,
    pub ticks: Option<u64>,
    /// `nest` only: the root layer's work budget.
    pub budget: Option<u64>,
    /// `sweep` only: grid resolution per axis.
    pub steps: Option<usize>,
}

/// What the flags after the command have set so far.
pub struct Flags {
    pub config: Option<Seq<char>>,
    pub out: Option<Seq<char>>,
    pub seed: Option<u64>,
    pub ticks: Option<u64>,
    pub budget: Option<u64>,
    pub steps: Option<usize>,
}

/// A parsed command line, as sequences of characters.
pub struct ArgsModel {
    pub command: Command,
    pub config: Seq<char>,
    pub out: Option<Seq<char>>,
    pub seed: Option<u64>,
    pub ticks: Option<u64>,
    pub budget: Option<u64>,
    pub steps: Option<usize>,
}

pub open spec fn opt_view(o: Option<String>) -> Option<Seq<char>> {
    match o {
        Some(s) => Some(s@),
        None => None,
    }
}

impl Args {
    pub open spec fn model(&self) -> ArgsModel {
        ArgsModel {
            command: self.command,
            config: self.config@,
            out: opt_view(self.out),
            seed: self.seed,
            ticks: self.ticks,
            budget: self.budget,
            steps: self.steps,
        }
    }
}

// ---------------------------------------------------------------------------
// Decimal numbers.
// ---------------------------------------------------------------------------

pub open spec fn is_digit(c: char) -> bool {
    '0' as int <= c as int <= '9' as int
}

/// The value of a string of decimal digits.
pub open spec fn digits_value(s: Seq<char>) -> nat
    decreases s.len(),
{
    if s.len() == 0 {
        0
    } else {
        digits_value(s.drop_last()) * 10 + (s.last() as int - '0' as int) as nat
    }
}

/// What follows an optional leading `+`.
pub open spec fn unsigned_digits(s: Seq<char>) -> Seq<char> {
    if s.len() > 0 && s[0] == '+' {
        s.drop_first()
    } else {
        s
    }
}

/// A number as the standard library reads one: an optional `+`, then one or
/// more decimal digits, of a value no greater than `max`.
pub open spec fn decimal(s: Seq<char>, max: nat) -> Option<nat> {
    let d = unsigned_digits(s);
    if d.len() > 0 && (forall|i: int| 0 <= i < d.len() ==> is_digit(#[trigger] d[i]))
        && digits_value(d) <= max {
        Some(digits_value(d))
    } else {
        None
    }
}

proof fn lemma_digits_value_grows(s: Seq<char>, k: int)
    requires
        0 <= k <= s.len(),
        forall|i: int| 0 <= i < s.len() ==> is_digit(#[trigger] s[i]),
    ensures
        digits_value(s.subrange(0, k)) <= digits_value(s),
    decreases s.len() - k,
{
    if k < s.len() {
        lemma_digits_value_grows(s, k + 1);
        let p = s.subrange(0, k + 1);
        assert(p.drop_last() =~= s.subrange(0, k));
        assert(is_digit(p.last()));
    } else {
        assert(s.subrange(0, k) =~= s);
    }
}

/// Reads a decimal number no greater than `max`, or `None`.
fn parse_decimal(s: &str, max: u64) -> (r: Option<u64>)
    ensures
        match decimal(s@, max as nat) {
            Some(v) => r == Some(v as u64),
            None => r is None,
        },
{
    let n = s.unicode_len();
    let ghost d = unsigned_digits(s@);
    let mut start: usize = 0;
    if n > 0 && s.get_char(0) == '+' {
        start = 1;
    }
    if start >= n {
        assert(d.len() == 0);
        return None;
    }
    assert(d =~= s@.subrange(start as int, n as int));
    let mut v: u64 = 0;
    let mut i: usize = start;
    while i < n
        invariant
            start <= i <= n,
            n == s@.len(),
            d =~= s@.subrange(start as int, n as int),
            d == unsigned_digits(s@),
            v == digits_value(s@.subrange(start as int, i as int)),
            v <= max,
            forall|k: int| start <= k < i ==> is_digit(#[trigger] s@[k]),
        decreases n - i,
    {
        let c = s.get_char(i);
        let code = c as u32;
        if code < ('0' as u32) || code > ('9' as u32) {
            proof {
                assert(!is_digit(d[i - start]));
                assert(!(forall|k: int| 0 <= k < d.len() ==> is_digit(#[trigger] d[k])));
                assert(decimal(s@, max as nat) is None);
            }
            return None;
        }
        let digit = (code - ('0' as u32)) as u64;
        let ghost next = s@.subrange(start as int, i + 1);
        proof {
            assert(next.drop_last() =~= s@.subrange(start as int, i as int));
            assert(next.last() == c);
        }
        if digit > max || v > (max - digit) / 10 {
            proof {
                assert(digits_value(next) > max) by (nonlinear_arith)
                    requires
                        digits_value(next) == v * 10 + digit,
                        digit > max || v > (max - digit) / 10,
                        0 <= digit <= 9,
                        v >= 0,
                        max >= 0,
                ;
                let rest = s@.subrange(start as int, n as int);
                if forall|k: int| 0 <= k < rest.len() ==> is_digit(#[trigger] rest[k]) {
                    lemma_digits_value_grows(rest, i + 1 - start);
                    assert(rest.subrange(0, i + 1 - start) =~= next);
                }
                assert(decimal(s@, max as nat) is None);
            }
            return None;
        }
        v = v * 10 + digit;
        i = i + 1;
    }
    proof {
        assert(s@.subrange(start as int, i as int) =~= d);
        assert forall|k: int| 0 <= k < d.len() implies is_digit(#[trigger] d[k]) by {
            assert(d[k] == s@[start + k]);
        }
    }
    Some(v)
}

// ---------------------------------------------------------------------------
// The grammar.
// ---------------------------------------------------------------------------

pub open spec fn command_named(s: Seq<char>) -> Option<Command> {
    if s == "run"@ {
        Some(Command::Run)
    } else if s == "nest"@ {
        Some(Command::Nest)
    } else if s == "pipe"@ {
        Some(Command::Pipe)
    } else if s == "detect"@ {
        Some(Command::Detect)
    } else if s == "sweep"@ {
        Some(Command::Sweep)
    } else {
        None
    }
}

/// The word a command is typed as.
pub open spec fn command_name(c: Command) -> Seq<char> {
    match c {
        Command::Run => "run"@,
        Command::Nest => "nest"@,
        Command::Pipe => "pipe"@,
        Command::Detect => "detect"@,
        Command::Sweep => "sweep"@,
    }
}

fn name_of(c: Command) -> (r: &'static str)
    ensures
        r@ == command_name(c),
{
    match c {
        Command::Run => "run",
        Command::Nest => "nest",
        Command::Pipe => "pipe",
        Command::Detect => "detect",
        Command::Sweep => "sweep",
    }
}

pub open spec fn asks_for_help(s: Seq<char>) -> bool {
    s == "-h"@ || s == "--help"@
}

pub open spec fn needs_a_value(flag: Seq<char>) -> Seq<char> {
    "`"@ + flag + "` needs a value"@
}

pub open spec fn not_a_number(flag: Seq<char>, v: Seq<char>) -> Seq<char> {
    "`"@ + flag + " "@ + v + "` is not a number"@
}

/// The one complaint left once every flag has been read: no config was named.
pub open spec fn needs_config(command: Command) -> Seq<char> {
    "`"@ + command_name(command) + "` needs --config <FILE>"@
}

/// What the finished flag list amounts to.
pub open spec fn finish(command: Command, f: Flags) -> Result<Option<ArgsModel>, Seq<char>> {
    match f.config {
        None => Err(needs_config(command)),
        Some(config) => Ok(
            Some(
                ArgsModel {
                    command,
                    config,
                    out: f.out,
                    seed: f.seed,
                    ticks: f.ticks,
                    budget: f.budget,
                    steps: f.steps,
                },
            ),
        ),
    }
}

/// Reads the flags from position `i` of `argv` on, given what earlier ones
/// set.
pub open spec fn flags_from(argv: Seq<Seq<char>>, command: Command, i: int, f: Flags) -> Result<
    Option<ArgsModel>,
    Seq<char>,
>
    decreases argv.len() - i,
{
    if i < 1 || i >= argv.len() {
        finish(command, f)
    } else {
        let flag = argv[i];
        let has_value = i + 1 < argv.len();
        let v = argv[i + 1];
        if asks_for_help(flag) {
            Ok(None)
        } else if flag == "--config"@ {
            if !has_value {
                Err(needs_a_value(flag))
            } else {
                flags_from(argv, command, i + 2, Flags { config: Some(v), ..f })
            }
        } else if flag == "--out"@ {
            if !has_value {
                Err(needs_a_value(flag))
            } else {
                flags_from(argv, command, i + 2, Flags { out: Some(v), ..f })
            }
        } else if flag == "--seed"@ || flag == "--ticks"@ {
            if !has_value {
                Err(needs_a_value(flag))
            } else {
                match decimal(v, u64::MAX as nat) {
                    None => Err(not_a_number(flag, v)),
                    Some(n) => if flag == "--seed"@ {
                        flags_from(argv, command, i + 2, Flags { seed: Some(n as u64), ..f })
                    } else {
                        flags_from(argv, command, i + 2, Flags { ticks: Some(n as u64), ..f })
                    },
                }
            }
        } else if flag == "--steps"@ {
            if command != Command::Sweep {
                Err("`--steps` applies to `sweep`, not other commands"@)
            } else if !has_value {
                Err(needs_a_value(flag))
            } else {
                match decimal(v, usize::MAX as nat) {
                    None => Err(not_a_number(flag, v)),
                    Some(n) => flags_from(
                        argv,
                        command,
                        i + 2,
                        Flags { steps: Some(n as usize), ..f },
                    ),
                }
            }
        } else if flag == "--budget"@ {
            if command != Command::Nest {
                Err("`--budget` applies to `nest`, not `run`"@)
            } else if !has_value {
                Err(needs_a_value(flag))
            } else {
                match decimal(v, u64::MAX as nat) {
                    None => Err(not_a_number(flag, v)),
                    Some(n) => flags_from(
                        argv,
                        command,
                        i + 2,
                        Flags { budget: Some(n as u64), ..f },
                    ),
                }
            }
        } else {
            Err("unknown option `"@ + flag + "`"@)
        }
    }
}

/// The whole command line. `Ok(None)` means help was requested.
pub open spec fn parse_spec(argv: Seq<Seq<char>>) -> Result<Option<ArgsModel>, Seq<char>> {
    if argv.len() == 0 {
        Ok(None)
    } else if asks_for_help(argv[0]) || argv[0] == "help"@ {
        Ok(None)
    } else {
        match command_named(argv[0]) {
            None => Err(
                "unknown command `"@ + argv[0]
                    + "`; the commands are `run`, `nest`, `pipe`, `detect` and `sweep`"@,
            ),
            Some(command) => flags_from(
                argv,
                command,
                1,
                Flags { config: None, out: None, seed: None, ticks: None, budget: None, steps: None },
            ),
        }
    }
}

/// The last character of a joined text is the last of its tail.
proof fn lemma_ends_like_its_tail(a: Seq<char>, b: Seq<char>)
    requires
        b.len() > 0,
    ensures
        (a + b).len() > 0,
        (a + b)[(a + b).len() - 1] == b[b.len() - 1],
{
}

/// Law: `-h` or `--help` in a flag position asks for help, whatever follows
/// it and whatever the flags before it have set.
pub proof fn lemma_help_flag_asks_for_help(
    argv: Seq<Seq<char>>,
    command: Command,
    i: int,
    f: Flags,
)
    requires
        1 <= i < argv.len(),
        argv[i] == "-h"@ || argv[i] == "--help"@,
    ensures
        flags_from(argv, command, i, f) == Ok::<Option<ArgsModel>, Seq<char>>(None),
{
}

/// Reading on from position `i`: if the flags of `p` from there are read
/// without complaint (short of a missing config), a help flag placed right
/// after `p` is reached and asks for help.
proof fn lemma_help_after_clean_flags(
    p: Seq<Seq<char>>,
    h: Seq<char>,
    rest: Seq<Seq<char>>,
    command: Command,
    i: int,
    f: Flags,
)
    requires
        1 <= i <= p.len(),
        h == "-h"@ || h == "--help"@,
        flags_from(p, command, i, f) is Ok || flags_from(p, command, i, f) == Err::<
            Option<ArgsModel>,
            Seq<char>,
        >(needs_config(command)),
    ensures
        flags_from(p + seq![h] + rest, command, i, f) == Ok::<Option<ArgsModel>, Seq<char>>(None),
    decreases p.len() - i,
{
    let q = p + seq![h] + rest;
    assert(q.len() == p.len() + 1 + rest.len());
    assert(q[p.len() as int] == h);
    assert forall|j: int| 0 <= j < p.len() implies q[j] == p[j] by {}
    reveal_strlit("` needs --config <FILE>");
    reveal_strlit("` needs a value");
    reveal_strlit("` is not a number");
    reveal_strlit("`--steps` applies to `sweep`, not other commands");
    reveal_strlit("`--budget` applies to `nest`, not `run`");
    reveal_strlit("`");
    let cfg = needs_config(command);
    lemma_ends_like_its_tail("`"@ + command_name(command), "` needs --config <FILE>"@);
    assert(cfg[cfg.len() - 1] == '>');
    if i == p.len() {
        lemma_help_flag_asks_for_help(q, command, i, f);
    } else {
        let flag = p[i];
        assert(q[i] == flag);
        let has_value = i + 1 < p.len();
        let v = p[i + 1];
        if has_value {
            assert(q[i + 1] == v);
        }
        lemma_ends_like_its_tail("`"@ + flag, "` needs a value"@);
        assert(needs_a_value(flag) != cfg);
        lemma_ends_like_its_tail("`"@ + flag + " "@ + v, "` is not a number"@);
        assert(not_a_number(flag, v) != cfg);
        lemma_ends_like_its_tail("unknown option `"@ + flag, "`"@);
        assert(("unknown option `"@ + flag + "`"@) != cfg);
        assert("`--steps` applies to `sweep`, not other commands"@ != cfg);
        assert("`--budget` applies to `nest`, not `run`"@ != cfg);
        if asks_for_help(flag) {
        } else if flag == "--config"@ {
            lemma_help_after_clean_flags(p, h, rest, command, i + 2, Flags { config: Some(v), ..f });
        } else if flag == "--out"@ {
            lemma_help_after_clean_flags(p, h, rest, command, i + 2, Flags { out: Some(v), ..f });
        } else if flag == "--seed"@ || flag == "--ticks"@ {
            if has_value {
                match decimal(v, u64::MAX as nat) {
                    None => {},
                    Some(n) => if flag == "--seed"@ {
                        lemma_help_after_clean_flags(
                            p,
                            h,
                            rest,
                            command,
                            i + 2,
                            Flags { seed: Some(n as u64), ..f },
                        );
                    } else {
                        lemma_help_after_clean_flags(
                            p,
                            h,
                            rest,
                            command,
                            i + 2,
                            Flags { ticks: Some(n as u64), ..f },
                        );
                    },
                }
            }
        } else if flag == "--steps"@ {
            if command == Command::Sweep && has_value {
                match decimal(v, usize::MAX as nat) {
                    None => {},
                    Some(n) => {
                        lemma_help_after_clean_flags(
                            p,
                            h,
                            rest,
                            command,
                            i + 2,
                            Flags { steps: Some(n as usize), ..f },
                        );
                    },
                }
            }
        } else if flag == "--budget"@ {
            if command == Command::Nest && has_value {
                match decimal(v, u64::MAX as nat) {
                    None => {},
                    Some(n) => {
                        lemma_help_after_clean_flags(
                            p,
                            h,
                            rest,
                            command,
                            i + 2,
                            Flags { budget: Some(n as u64), ..f },
                        );
                    },
                }
            }
        }
    }
}

/// Law: help may be asked for anywhere after the command. If the arguments
/// before a `-h` or `--help` are read without complaint (a missing
/// `--config` aside, which is only noticed at the end), the command line
/// asks for help, whatever comes after.
pub proof fn lemma_help_anywhere_after_the_command(
    before: Seq<Seq<char>>,
    h: Seq<char>,
    rest: Seq<Seq<char>>,
)
    requires
        before.len() >= 1,
        h == "-h"@ || h == "--help"@,
        command_named(before[0]) is Some,
        parse_spec(before) is Ok || parse_spec(before) == Err::<Option<ArgsModel>, Seq<char>>(
            needs_config(command_named(before[0])->0),
        ),
    ensures
        parse_spec(before + seq![h] + rest) == Ok::<Option<ArgsModel>, Seq<char>>(None),
{
    let q = before + seq![h] + rest;
    assert(q[0] == before[0]);
    if !(asks_for_help(before[0]) || before[0] == "help"@) {
        let c = command_named(before[0])->0;
        lemma_help_after_clean_flags(
            before,
            h,
            rest,
            c,
            1,
            Flags { config: None, out: None, seed: None, ticks: None, budget: None, steps: None },
        );
    }
}

/// The parse result agrees with the grammar's.
pub open spec fn agrees(
    r: Result<Option<Args>, String>,
    m: Result<Option<ArgsModel>, Seq<char>>,
) -> bool {
    match (r, m) {
        (Ok(None), Ok(None)) => true,
        (Ok(Some(a)), Ok(Some(am))) => a.model() == am,
        (Err(e), Err(em)) => e@ == em,
        _ => false,
    }
}

pub open spec fn argv_view(argv: Seq<String>) -> Seq<Seq<char>> {
    argv.map_values(|s: String| s@)
}

fn same_text(a: &str, b: &str) -> (r: bool)
    ensures
        r == (a@ == b@),
{
    let n = a.unicode_len();
    if n != b.unicode_len() {
        return false;
    }
    let mut i: usize = 0;
    while i < n
        invariant
            n == a@.len() == b@.len(),
            i <= n,
            forall|k: int| 0 <= k < i ==> a@[k] == b@[k],
        decreases n - i,
    {
        if a.get_char(i) != b.get_char(i) {
            return false;
        }
        i = i + 1;
    }
    assert(a@ =~= b@);
    true
}

fn text(s: &str) -> (r: String)
    ensures
        r@ == s@,
{
    String::from_str(s)
}

fn join3(a: &str, b: &str, c: &str) -> (r: String)
    ensures
        r@ == a@ + b@ + c@,
{
    let mut s = String::from_str(a);
    s.append(b);
    s.append(c);
    s
}

fn bad_number(flag: &str, v: &str) -> (r: String)
    ensures
        r@ == not_a_number(flag@, v@),
{
    let mut s = String::from_str("`");
    s.append(flag);
    s.append(" ");
    s.append(v);
    s.append("` is not a number");
    s
}

/// Reads the command line. `Ok(None)` means help was requested.
pub fn parse(argv: Vec<String>) -> (r: Result<Option<Args>, String>)
    ensures
        agrees(r, parse_spec(argv_view(argv@))),
        argv@.len() >= 2 && command_named(argv@[0]@) is Some && (argv@[1]@ == "-h"@
            || argv@[1]@ == "--help"@) ==> r matches Ok(None),
{
    let ghost av = argv_view(argv@);
    proof {
        if argv@.len() >= 2 && command_named(argv@[0]@) is Some && (argv@[1]@ == "-h"@
            || argv@[1]@ == "--help"@) {
            assert(av[0] == argv@[0]@ && av[1] == argv@[1]@);
            lemma_help_flag_asks_for_help(
                av,
                command_named(av[0])->0,
                1,
                Flags {
                    config: None,
                    out: None,
                    seed: None,
                    ticks: None,
                    budget: None,
                    steps: None,
                },
            );
            assert(parse_spec(av) == Ok::<Option<ArgsModel>, Seq<char>>(None));
        }
    }
    let n = argv.len();
    if n == 0 {
        return Ok(None);
    }
    let cmd = argv[0].as_str();
    assert(cmd@ == av[0]);
    if same_text(cmd, "-h") || same_text(cmd, "--help") || same_text(cmd, "help") {
        return Ok(None);
    }
    let command = if same_text(cmd, "run") {
        Command::Run
    } else if same_text(cmd, "nest") {
        Command::Nest
    } else if same_text(cmd, "pipe") {
        Command::Pipe
    } else if same_text(cmd, "detect") {
        Command::Detect
    } else if same_text(cmd, "sweep") {
        Command::Sweep
    } else {
        return Err(
            join3(
                "unknown command `",
                cmd,
                "`; the commands are `run`, `nest`, `pipe`, `detect` and `sweep`",
            ),
        );
    };

    let mut config: Option<String> = None;
    let mut out: Option<String> = None;
    let mut seed: Option<u64> = None;
    let mut ticks: Option<u64> = None;
    let mut budget: Option<u64> = None;
    let mut steps: Option<usize> = None;

    let mut i: usize = 1;
    while i < n
        invariant
            n == argv.len(),
            av == argv_view(argv@),
            1 <= i,
            command_named(av[0]) == Some(command),
            !asks_for_help(av[0]) && av[0] != "help"@,
            flags_from(
                av,
                command,
                i as int,
                Flags {
                    config: opt_view(config),
                    out: opt_view(out),
                    seed,
                    ticks,
                    budget,
                    steps,
                },
            ) == parse_spec(av),
        decreases n - i,
    {
        let ghost f = Flags {
            config: opt_view(config),
            out: opt_view(out),
            seed,
            ticks,
            budget,
            steps,
        };
        let flag = argv[i].as_str();
        assert(flag@ == av[i as int]);
        let has_value = i + 1 < n;
        if has_value {
            assert(argv[i + 1]@ == av[i + 1]);
        }
        if same_text(flag, "-h") || same_text(flag, "--help") {
            return Ok(None);
        } else if same_text(flag, "--config") {
            if !has_value {
                return Err(join3("`", flag, "` needs a value"));
            }
            config = Some(text(argv[i + 1].as_str()));
        } else if same_text(flag, "--out") {
            if !has_value {
                return Err(join3("`", flag, "` needs a value"));
            }
            out = Some(text(argv[i + 1].as_str()));
        } else if same_text(flag, "--seed") || same_text(flag, "--ticks") {
            if !has_value {
                return Err(join3("`", flag, "` needs a value"));
            }
            let v = argv[i + 1].as_str();
            match parse_decimal(v, u64::MAX) {
                None => {
                    return Err(bad_number(flag, v));
                },
                Some(x) => {
                    if same_text(flag, "--seed") {
                        seed = Some(x);
                    } else {
                        ticks = Some(x);
                    }
                },
            }
        } else if same_text(flag, "--steps") {
            if command != Command::Sweep {
                return Err(text("`--steps` applies to `sweep`, not other commands"));
            }
            if !has_value {
                return Err(join3("`", flag, "` needs a value"));
            }
            let v = argv[i + 1].as_str();
            match parse_decimal(v, usize::MAX as u64) {
                None => {
                    return Err(bad_number(flag, v));
                },
                Some(x) => {
                    steps = Some(x as usize);
                },
            }
        } else if same_text(flag, "--budget") {
            if command != Command::Nest {
                return Err(text("`--budget` applies to `nest`, not `run`"));
            }
            if !has_value {
                return Err(join3("`", flag, "` needs a value"));
            }
            let v = argv[i + 1].as_str();
            match parse_decimal(v, u64::MAX) {
                None => {
                    return Err(bad_number(flag, v));
                },
                Some(x) => {
                    budget = Some(x);
                },
            }
        } else {
            return Err(join3("unknown option `", flag, "`"));
        }
        i = i + 2;
    }
    match config {
        None => {
            Err(join3("`", name_of(command), "` needs --config <FILE>"))
        },
        Some(config) => Ok(Some(Args { command, config, out, seed, ticks, budget, steps })),
    }
}

} // verus!
