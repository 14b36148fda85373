//! Command-line options.

use vstd::prelude::*;
use crate::format::push_lit;
use crate::text::{chars_of, parse_u64, parse_u64_in, span_eq, span_starts_with, starts_with, string_of};

verus! {

/// Output detail level for the single-shot report.
#[derive(Debug, Clone, Copy, PartialEq, Eq, Structural)]
pub enum Mode {
    /// Compact `free -m`-style memory summary.
    Short,
    /// Full report: hardware panels, temperatures, top consumers.
    Full,
}

/// The parsed command line.
#[derive(Debug, Clone, Copy, PartialEq, Eq)]
pub struct Cli {
    pub json: bool,
    pub monitor: bool,
    /// Refresh interval in seconds for monitor mode.
    pub interval: u64,
    /// Explicitly requested mode; `None` means auto (full as root, short otherwise).
    pub mode: Option<Mode>,
}

/// The options before any argument is read.
pub open spec fn default_cli() -> Cli {
    Cli { json: false, monitor: false, interval: 2, mode: None }
}

/// The options after an explicit `--short`/`--full`, or the error when the
/// other mode was already chosen.
pub open spec fn mode_result(cli: Cli, mode: Mode) -> Result<Cli, Seq<char>> {
    match cli.mode {
        Some(m) => if m != mode {
            Err("--short and --full are mutually exclusive"@)
        } else {
            Ok(Cli { mode: Some(mode), ..cli })
        },
        None => Ok(Cli { mode: Some(mode), ..cli }),
    }
}

/// An `--interval` value: a positive integer number of seconds.
pub open spec fn interval_result(val: Seq<char>) -> Result<u64, Seq<char>> {
    match parse_u64(val) {
        Some(n) => if n == 0 {
            Err("--interval must be at least 1 second"@)
        } else {
            Ok(n)
        },
        None => Err("invalid --interval value: "@ + val),
    }
}

/// The options read from `args[i..]` on top of `cli`, or the first error.
pub open spec fn args_from(args: Seq<Seq<char>>, i: int, cli: Cli) -> Result<Cli, Seq<char>>
    decreases args.len() - i,
{
    if i < 0 || i >= args.len() {
        Ok(cli)
    } else {
        let a = args[i];
        if a == "--json"@ {
            args_from(args, i + 1, Cli { json: true, ..cli })
        } else if a == "--monitor"@ {
            args_from(args, i + 1, Cli { monitor: true, ..cli })
        } else if a == "--short"@ {
            match mode_result(cli, Mode::Short) {
                Ok(c) => args_from(args, i + 1, c),
                Err(e) => Err(e),
            }
        } else if a == "--full"@ {
            match mode_result(cli, Mode::Full) {
                Ok(c) => args_from(args, i + 1, c),
                Err(e) => Err(e),
            }
        } else if a == "--interval"@ {
            if i + 1 >= args.len() {
                Err("--interval requires a value (seconds)"@)
            } else {
                match interval_result(args[i + 1]) {
                    Ok(n) => args_from(args, i + 2, Cli { interval: n, ..cli }),
                    Err(e) => Err(e),
                }
            }
        } else if starts_with(a, "--interval="@) {
            match interval_result(a.skip("--interval="@.len() as int)) {
                Ok(n) => args_from(args, i + 1, Cli { interval: n, ..cli }),
                Err(e) => Err(e),
            }
        } else {
            Err("unknown argument: "@ + a)
        }
    }
}

/// A successful parse never yields a zero interval: the default is 2 seconds
/// and every `--interval` value must be at least 1.
pub proof fn lemma_parsed_interval_positive(args: Seq<Seq<char>>, i: int, cli: Cli)
    requires
        cli.interval >= 1,
    ensures
        args_from(args, i, cli) matches Ok(c) ==> c.interval >= 1,
    decreases args.len() - i,
{
    if 0 <= i < args.len() {
        let a = args[i];
        if a == "--json"@ {
            lemma_parsed_interval_positive(args, i + 1, Cli { json: true, ..cli });
        } else if a == "--monitor"@ {
            lemma_parsed_interval_positive(args, i + 1, Cli { monitor: true, ..cli });
        } else if a == "--short"@ {
            if let Ok(c) = mode_result(cli, Mode::Short) {
                lemma_parsed_interval_positive(args, i + 1, c);
            }
        } else if a == "--full"@ {
            if let Ok(c) = mode_result(cli, Mode::Full) {
                lemma_parsed_interval_positive(args, i + 1, c);
            }
        } else if a == "--interval"@ {
            if i + 1 < args.len() {
                if let Ok(n) = interval_result(args[i + 1]) {
                    lemma_parsed_interval_positive(args, i + 2, Cli { interval: n, ..cli });
                }
            }
        } else if starts_with(a, "--interval="@) {
            if let Ok(n) = interval_result(a.skip("--interval="@.len() as int)) {
                lemma_parsed_interval_positive(args, i + 1, Cli { interval: n, ..cli });
            }
        }
    }
}

/// `--short` and `--full` exclude each other: in a successful parse, a mode
/// chosen before stays chosen, and every `--short` (or `--full`) among the
/// arguments shows in the result's mode. So no successful parse holds both.
pub proof fn lemma_parsed_mode(args: Seq<Seq<char>>, i: int, cli: Cli)
    requires
        0 <= i,
    ensures
        args_from(args, i, cli) matches Ok(c) ==> {
            &&& (cli.mode matches Some(m) ==> c.mode == Some(m))
            &&& forall|j: int| i <= j < args.len() && args[j] == "--short"@ ==> c.mode == Some(Mode::Short)
            &&& forall|j: int| i <= j < args.len() && args[j] == "--full"@ ==> c.mode == Some(Mode::Full)
        },
    decreases args.len() - i,
{
    reveal_strlit("--short");
    reveal_strlit("--full");
    reveal_strlit("--json");
    reveal_strlit("--monitor");
    reveal_strlit("--interval");
    reveal_strlit("--interval=");
    assert("--full"@ != "--json"@) by {
        assert("--full"@[2] != "--json"@[2]);
    }
    if i < args.len() {
        let a = args[i];
        let next: Option<(int, Cli)> = if a == "--json"@ {
            Some((i + 1, Cli { json: true, ..cli }))
        } else if a == "--monitor"@ {
            Some((i + 1, Cli { monitor: true, ..cli }))
        } else if a == "--short"@ {
            match mode_result(cli, Mode::Short) {
                Ok(c) => Some((i + 1, c)),
                Err(_) => None,
            }
        } else if a == "--full"@ {
            match mode_result(cli, Mode::Full) {
                Ok(c) => Some((i + 1, c)),
                Err(_) => None,
            }
        } else if a == "--interval"@ {
            if i + 1 < args.len() {
                match interval_result(args[i + 1]) {
                    Ok(n) => Some((i + 2, Cli { interval: n, ..cli })),
                    Err(_) => None,
                }
            } else {
                None
            }
        } else if starts_with(a, "--interval="@) {
            match interval_result(a.skip("--interval="@.len() as int)) {
                Ok(n) => Some((i + 1, Cli { interval: n, ..cli })),
                Err(_) => None,
            }
        } else {
            None
        };
        if let Some((k, c2)) = next {
            assert(args_from(args, i, cli) == args_from(args, k, c2));
            lemma_parsed_mode(args, k, c2);
            if let Ok(c) = args_from(args, i, cli) {
                assert(cli.mode matches Some(m) ==> c2.mode == Some(m));
                if k == i + 2 {
                    assert(args[i + 1] != "--short"@ && args[i + 1] != "--full"@) by {
                        if args[i + 1] == "--short"@ || args[i + 1] == "--full"@ {
                            assert(!crate::text::is_digit(args[i + 1][0]));
                            assert(!crate::text::is_digit(args[i + 1][1]));
                        }
                    }
                }
                assert forall|j: int| i <= j < args.len() && args[j] == "--full"@ implies c.mode
                    == Some(Mode::Full) by {
                    if j == i {
                        assert(c2.mode == Some(Mode::Full));
                    }
                }
                assert forall|j: int| i <= j < args.len() && args[j] == "--short"@ implies c.mode
                    == Some(Mode::Short) by {
                    if j == i {
                        assert(c2.mode == Some(Mode::Short));
                    }
                }
            }
        }
    }
}

/// Whether `f` is among the arguments `args[i..]`.
pub open spec fn has_arg(args: Seq<Seq<char>>, i: int, f: Seq<char>) -> bool {
    exists|j: int| i <= j < args.len() && args[j] == f
}

/// Whether the arguments `args[i..]` read as options: each is `--json`,
/// `--monitor`, `--short`, `--full`, `--interval` followed by a valid value,
/// or `--interval=` with a valid value (a valid value being a whole number of
/// seconds, at least 1).
pub open spec fn args_well_formed(args: Seq<Seq<char>>, i: int) -> bool
    decreases args.len() - i,
{
    if i < 0 || i >= args.len() {
        true
    } else {
        let a = args[i];
        if a == "--json"@ || a == "--monitor"@ || a == "--short"@ || a == "--full"@ {
            args_well_formed(args, i + 1)
        } else if a == "--interval"@ {
            i + 1 < args.len() && interval_result(args[i + 1]) is Ok && args_well_formed(
                args,
                i + 2,
            )
        } else if starts_with(a, "--interval="@) {
            interval_result(a.skip("--interval="@.len() as int)) is Ok && args_well_formed(
                args,
                i + 1,
            )
        } else {
            false
        }
    }
}

/// The interval that the last `--interval` option of `args[i..]` gives, or `d`
/// without one.
pub open spec fn last_interval(args: Seq<Seq<char>>, i: int, d: u64) -> u64
    decreases args.len() - i,
{
    if i < 0 || i >= args.len() {
        d
    } else {
        let a = args[i];
        if a == "--interval"@ {
            if i + 1 < args.len() {
                match interval_result(args[i + 1]) {
                    Ok(n) => last_interval(args, i + 2, n),
                    Err(_) => d,
                }
            } else {
                d
            }
        } else if starts_with(a, "--interval="@) {
            match interval_result(a.skip("--interval="@.len() as int)) {
                Ok(n) => last_interval(args, i + 1, n),
                Err(_) => d,
            }
        } else {
            last_interval(args, i + 1, d)
        }
    }
}

proof fn lemma_has_arg_step(args: Seq<Seq<char>>, i: int, f: Seq<char>)
    requires
        0 <= i < args.len(),
    ensures
        has_arg(args, i, f) == (args[i] == f || has_arg(args, i + 1, f)),
{
    if has_arg(args, i, f) && args[i] != f {
        let j = choose|j: int| i <= j < args.len() && args[j] == f;
        assert(i + 1 <= j);
    }
}

/// A valid `--interval` value is none of the flags.
proof fn lemma_value_not_flag(v: Seq<char>)
    requires
        interval_result(v) is Ok,
    ensures
        v != "--json"@,
        v != "--monitor"@,
        v != "--short"@,
        v != "--full"@,
{
    reveal_strlit("--short");
    reveal_strlit("--full");
    reveal_strlit("--json");
    reveal_strlit("--monitor");
    if v == "--json"@ || v == "--monitor"@ || v == "--short"@ || v == "--full"@ {
        assert(!crate::text::is_digit(v[0]));
        assert(!crate::text::is_digit(v[1]));
    }
}

/// When the options read from `args[i..]` on top of `cli` succeed, and what
/// they give: they succeed exactly when the arguments read as options and
/// `--short` and `--full` do not both occur (counting a mode already chosen);
/// then `--json` and `--monitor` are set when they occur, the interval is the
/// last one given (or the one before), and the mode is the one given (or the
/// one before).
pub proof fn lemma_parse_outcome(args: Seq<Seq<char>>, i: int, cli: Cli)
    requires
        0 <= i,
    ensures
        (args_from(args, i, cli) is Ok) <==> (args_well_formed(args, i) && !(has_arg(
            args,
            i,
            "--short"@,
        ) && has_arg(args, i, "--full"@)) && !(has_arg(args, i, "--short"@) && cli.mode == Some(
            Mode::Full,
        )) && !(has_arg(args, i, "--full"@) && cli.mode == Some(Mode::Short))),
        args_from(args, i, cli) matches Ok(c) ==> c == (Cli {
            json: cli.json || has_arg(args, i, "--json"@),
            monitor: cli.monitor || has_arg(args, i, "--monitor"@),
            interval: last_interval(args, i, cli.interval),
            mode: if has_arg(args, i, "--short"@) {
                Some(Mode::Short)
            } else if has_arg(args, i, "--full"@) {
                Some(Mode::Full)
            } else {
                cli.mode
            },
        }),
    decreases args.len() - i,
{
    reveal_strlit("--short");
    reveal_strlit("--full");
    reveal_strlit("--json");
    reveal_strlit("--monitor");
    reveal_strlit("--interval");
    reveal_strlit("--interval=");
    assert("--full"@ != "--json"@) by {
        assert("--full"@[2] != "--json"@[2]);
    }
    let json = "--json"@;
    let monitor = "--monitor"@;
    let short = "--short"@;
    let full = "--full"@;
    if i < args.len() {
        let a = args[i];
        lemma_has_arg_step(args, i, json);
        lemma_has_arg_step(args, i, monitor);
        lemma_has_arg_step(args, i, short);
        lemma_has_arg_step(args, i, full);
        if a == json {
            lemma_parse_outcome(args, i + 1, Cli { json: true, ..cli });
        } else if a == monitor {
            lemma_parse_outcome(args, i + 1, Cli { monitor: true, ..cli });
        } else if a == short {
            if let Ok(c2) = mode_result(cli, Mode::Short) {
                lemma_parse_outcome(args, i + 1, c2);
            }
        } else if a == full {
            if let Ok(c2) = mode_result(cli, Mode::Full) {
                lemma_parse_outcome(args, i + 1, c2);
            }
        } else if a == "--interval"@ {
            if i + 1 < args.len() {
                if let Ok(n) = interval_result(args[i + 1]) {
                    lemma_value_not_flag(args[i + 1]);
                    lemma_has_arg_step(args, i + 1, json);
                    lemma_has_arg_step(args, i + 1, monitor);
                    lemma_has_arg_step(args, i + 1, short);
                    lemma_has_arg_step(args, i + 1, full);
                    lemma_parse_outcome(args, i + 2, Cli { interval: n, ..cli });
                }
            }
        } else if starts_with(a, "--interval="@) {
            assert(a != json && a != monitor && a != short && a != full);
            if let Ok(n) = interval_result(a.skip("--interval="@.len() as int)) {
                lemma_parse_outcome(args, i + 1, Cli { interval: n, ..cli });
            }
        }
    }
}

/// A successful parse of the whole command line, in the terms of
/// [`lemma_parse_outcome`] from the defaults: no mode, no flags, 2 seconds.
pub proof fn lemma_parse_args_outcome(args: Seq<Seq<char>>)
    ensures
        (args_from(args, 0, default_cli()) is Ok) <==> (args_well_formed(args, 0) && !(has_arg(
            args,
            0,
            "--short"@,
        ) && has_arg(args, 0, "--full"@))),
        args_from(args, 0, default_cli()) matches Ok(c) ==> c == (Cli {
            json: has_arg(args, 0, "--json"@),
            monitor: has_arg(args, 0, "--monitor"@),
            interval: last_interval(args, 0, 2),
            mode: if has_arg(args, 0, "--short"@) {
                Some(Mode::Short)
            } else if has_arg(args, 0, "--full"@) {
                Some(Mode::Full)
            } else {
                None
            },
        }),
{
    lemma_parse_outcome(args, 0, default_cli());
}

/// The characters of each argument.
pub open spec fn args_view(args: Seq<String>) -> Seq<Seq<char>> {
    args.map_values(|s: String| s@)
}

/// Record an explicit `--short`/`--full` choice, rejecting contradictions.
pub fn set_mode(cli: &mut Cli, mode: Mode) -> (r: Result<(), String>)
    ensures
        match mode_result(*old(cli), mode) {
            Ok(c) => r is Ok && *final(cli) == c,
            Err(e) => r matches Err(m) && m@ == e && *final(cli) == *old(cli),
        },
{
    match cli.mode {
        Some(m) => {
            if m != mode {
                let mut e = String::new();
                push_lit(&mut e, "--short and --full are mutually exclusive");
                return Err(e);
            }
        },
        None => {},
    }
    cli.mode = Some(mode);
    Ok(())
}

/// Parse and validate an `--interval` value: a positive integer number of seconds.
pub fn parse_interval(val: &str) -> (r: Result<u64, String>)
    ensures
        match (r, interval_result(val@)) {
            (Ok(n), Ok(m)) => n == m,
            (Err(e), Err(m)) => e@ == m,
            _ => false,
        },
{
    let cs = chars_of(val);
    assert(cs@.subrange(0, cs@.len() as int) =~= cs@);
    match parse_u64_in(&cs, 0, cs.len()) {
        Some(n) => {
            if n == 0 {
                let mut e = String::new();
                push_lit(&mut e, "--interval must be at least 1 second");
                assert(e@ =~= "--interval must be at least 1 second"@);
                Err(e)
            } else {
                Ok(n)
            }
        },
        None => {
            let mut e = String::new();
            push_lit(&mut e, "invalid --interval value: ");
            push_lit(&mut e, val);
            Err(e)
        },
    }
}

/// Parse command-line arguments (excluding the program name) into a [`Cli`].
///
/// Returns `Err` with a human-readable message on unknown flags, an invalid
/// `--interval` value, or conflicting `--short`/`--full`. `--help`/`-h` is
/// handled by the caller before this runs.
pub fn parse_args(args: &[String]) -> (r: Result<Cli, String>)
    ensures
        match (r, args_from(args_view(args@), 0, default_cli())) {
            (Ok(c), Ok(d)) => c == d,
            (Err(e), Err(m)) => e@ == m,
            _ => false,
        },
{
    let ghost av = args_view(args@);
    let mut cli = Cli { json: false, monitor: false, interval: 2, mode: None };
    let mut i: usize = 0;
    while i < args.len()
        invariant
            i <= args.len(),
            av == args_view(args@),
            args_from(av, i as int, cli) == args_from(av, 0, default_cli()),
        decreases args.len() - i,
    {
        let arg = args[i].as_str();
        let ghost a = av[i as int];
        assert(arg@ == a);
        let cs = chars_of(arg);
        let n = cs.len();
        assert(cs@.subrange(0, n as int) =~= cs@);
        if span_eq(&cs, 0, n, "--json") {
            cli.json = true;
        } else if span_eq(&cs, 0, n, "--monitor") {
            cli.monitor = true;
        } else if span_eq(&cs, 0, n, "--short") {
            match set_mode(&mut cli, Mode::Short) {
                Ok(()) => {},
                Err(e) => return Err(e),
            }
        } else if span_eq(&cs, 0, n, "--full") {
            match set_mode(&mut cli, Mode::Full) {
                Ok(()) => {},
                Err(e) => return Err(e),
            }
        } else if span_eq(&cs, 0, n, "--interval") {
            if i + 1 >= args.len() {
                let mut e = String::new();
                push_lit(&mut e, "--interval requires a value (seconds)");
                return Err(e);
            }
            assert(args[i + 1 as int]@ == av[i + 1]);
            match parse_interval(args[i + 1].as_str()) {
                Ok(v) => cli.interval = v,
                Err(e) => return Err(e),
            }
            i = i + 1;
        } else if span_starts_with(&cs, 0, n, "--interval=") {
            let k = "--interval=".unicode_len();
            let rest = string_of(&cs, k, n);
            assert(rest@ =~= a.skip("--interval="@.len() as int));
            match parse_interval(rest.as_str()) {
                Ok(v) => cli.interval = v,
                Err(e) => return Err(e),
            }
        } else {
            let mut e = String::new();
            push_lit(&mut e, "unknown argument: ");
            push_lit(&mut e, arg);
            return Err(e);
        }
        i = i + 1;
    }
    Ok(cli)
}

} // verus!
