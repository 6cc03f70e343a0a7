use the_universe::cli::{Command, parse};

fn argv(s: &str) -> Vec<String> {
    s.split_whitespace().map(String::from).collect()
}

#[test]
fn bare_invocation_prints_help() {
    assert!(parse(vec![]).unwrap().is_none());
    assert!(parse(argv("--help")).unwrap().is_none());
}

#[test]
fn run_requires_a_config() {
    let e = parse(argv("run")).unwrap_err();
    assert!(e.contains("--config"));
}

#[test]
fn overrides_are_parsed() {
    let a = parse(argv("run --config c.toml --seed 9 --ticks 50 --out here"))
        .unwrap()
        .unwrap();
    assert_eq!(a.config, "c.toml");
    assert_eq!(a.seed, Some(9));
    assert_eq!(a.ticks, Some(50));
    assert_eq!(a.out, Some("here".to_string()));
}

#[test]
fn a_flag_without_its_value_is_an_error() {
    assert!(parse(argv("run --config")).is_err());
}

#[test]
fn non_numeric_seed_is_rejected_by_name() {
    let e = parse(argv("run --config c.toml --seed later")).unwrap_err();
    assert!(e.contains("not a number"), "{e}");
}

#[test]
fn unknown_command_is_rejected() {
    assert!(parse(argv("simulate --config c.toml")).is_err());
}

#[test]
fn sweep_is_a_command() {
    let a = parse(argv("sweep --config c.toml --steps 9"))
        .unwrap()
        .unwrap();
    assert_eq!(a.command, Command::Sweep);
    assert_eq!(a.steps, Some(9));
}

#[test]
fn steps_belongs_to_sweep_only() {
    let e = parse(argv("run --config c.toml --steps 9")).unwrap_err();
    assert!(e.contains("applies to `sweep`"), "{e}");
}

#[test]
fn detect_is_a_command() {
    let a = parse(argv("detect --config c.toml")).unwrap().unwrap();
    assert_eq!(a.command, Command::Detect);
}

#[test]
fn pipe_is_a_command() {
    let a = parse(argv("pipe --config c.toml")).unwrap().unwrap();
    assert_eq!(a.command, Command::Pipe);
}

#[test]
fn nest_is_a_command() {
    let a = parse(argv("nest --config c.toml")).unwrap().unwrap();
    assert_eq!(a.command, Command::Nest);
}

#[test]
fn budget_belongs_to_nest_only() {
    let a = parse(argv("nest --config c.toml --budget 5000"))
        .unwrap()
        .unwrap();
    assert_eq!(a.budget, Some(5000));
    let e = parse(argv("run --config c.toml --budget 5000")).unwrap_err();
    assert!(e.contains("applies to `nest`"), "{e}");
}

#[test]
fn the_error_names_the_command_you_typed() {
    let e = parse(argv("nest")).unwrap_err();
    assert!(e.contains("`nest` needs --config"), "{e}");
}

#[test]
fn every_command_is_named_in_its_missing_config_error() {
    for cmd in ["run", "nest", "pipe", "detect", "sweep"] {
        let e = parse(argv(cmd)).unwrap_err();
        assert_eq!(e, format!("`{cmd}` needs --config <FILE>"));
    }
}

#[test]
fn every_refusal_has_its_exact_message() {
    let cases = [
        (
            "simulate",
            "unknown command `simulate`; the commands are `run`, `nest`, `pipe`, `detect` and `sweep`",
        ),
        ("run --out", "`--out` needs a value"),
        ("run --seed", "`--seed` needs a value"),
        ("run --config c.toml --ticks -3", "`--ticks -3` is not a number"),
        ("sweep --config c.toml --steps x9", "`--steps x9` is not a number"),
        ("nest --config c.toml --budget", "`--budget` needs a value"),
        ("run --config c.toml --verbose", "unknown option `--verbose`"),
        ("pipe", "`pipe` needs --config <FILE>"),
        ("detect --seed 4", "`detect` needs --config <FILE>"),
        ("run --config c.toml --steps", "`--steps` applies to `sweep`, not other commands"),
        ("sweep --budget 5", "`--budget` applies to `nest`, not `run`"),
    ];
    for (line, message) in cases {
        assert_eq!(parse(argv(line)).unwrap_err(), message, "{line}");
    }
}

#[test]
fn help_anywhere_after_the_command_wins() {
    assert!(parse(argv("run --seed 3 -h")).unwrap().is_none());
    assert!(parse(argv("help")).unwrap().is_none());
    assert!(parse(argv("-h --bogus")).unwrap().is_none());
}

#[test]
fn numbers_are_read_as_the_standard_library_reads_them() {
    let a = parse(argv("run --config c --seed +42 --ticks 007")).unwrap().unwrap();
    assert_eq!(a.seed, Some(42));
    assert_eq!(a.ticks, Some(7));
    let max = parse(argv("run --config c --seed 18446744073709551615"))
        .unwrap()
        .unwrap();
    assert_eq!(max.seed, Some(u64::MAX));
    assert!(parse(argv("run --config c --seed 18446744073709551616")).is_err());
    assert!(parse(argv("run --config c --seed +")).is_err());
    assert!(parse(argv("run --config c --seed 1_000")).is_err());
}

#[test]
fn later_flags_override_earlier_ones() {
    let a = parse(argv("run --config a --config b --seed 1 --seed 2"))
        .unwrap()
        .unwrap();
    assert_eq!(a.config, "b");
    assert_eq!(a.seed, Some(2));
    assert_eq!(a.out, None);
    assert_eq!(a.budget, None);
    assert_eq!(a.steps, None);
}
