//! The command line: which command to run and with which options.

use vstd::prelude::*;

use crate::text::{chars_of, parse_usize_chars, parse_usize_spec, same_text, starts_with_chars};

verus! {

/// A command of the runtime.
#[derive(Debug, Clone)]
pub enum Command {
    /// Runs the demonstration.
    Demo,
    /// Answers one prompt.
    Infer { model: String, prompt: String },
    /// Answers each line of a file.
    Batch { model: String, input: String },
    /// Answers one prompt many times, in parallel.
    Benchmark { model: String, prompt: String, requests: usize, workers: usize },
    /// Shows the latest answers.
    History { limit: usize },
    /// Shows the usage.
    Help,
}

/// A command as its parts' character sequences.
pub enum CommandSpec {
    Demo,
    Infer { model: Seq<char>, prompt: Seq<char> },
    Batch { model: Seq<char>, input: Seq<char> },
    Benchmark { model: Seq<char>, prompt: Seq<char>, requests: usize, workers: usize },
    History { limit: usize },
    Help,
}

impl View for Command {
    type V = CommandSpec;

    open spec fn view(&self) -> CommandSpec {
        match self {
            Command::Demo => CommandSpec::Demo,
            Command::Infer { model, prompt } => CommandSpec::Infer { model: model@, prompt: prompt@ },
            Command::Batch { model, input } => CommandSpec::Batch { model: model@, input: input@ },
            Command::Benchmark { model, prompt, requests, workers } => CommandSpec::Benchmark {
                model: model@,
                prompt: prompt@,
                requests: *requests,
                workers: *workers,
            },
            Command::History { limit } => CommandSpec::History { limit: *limit },
            Command::Help => CommandSpec::Help,
        }
    }
}

/// The parsed command line.
#[derive(Debug, Clone)]
pub struct Cli {
    /// The command to run.
    pub command: Command,
}

/// Why a command line was refused.
#[derive(Debug, Clone)]
pub enum CliError {
    /// An option is the last argument, or is followed by another option.
    MissingValue { option: String },
    /// An option's value is not an unsigned number that fits.
    InvalidNumber { option: String },
    /// A command lacks an option that it needs.
    MissingOption { command: String, option: String },
    /// The first argument names no command.
    UnknownCommand { command: String },
}

/// A refusal as its parts' character sequences.
pub enum CliErrorSpec {
    MissingValue { option: Seq<char> },
    InvalidNumber { option: Seq<char> },
    MissingOption { command: Seq<char>, option: Seq<char> },
    UnknownCommand { command: Seq<char> },
}

impl View for CliError {
    type V = CliErrorSpec;

    open spec fn view(&self) -> CliErrorSpec {
        match self {
            CliError::MissingValue { option } => CliErrorSpec::MissingValue { option: option@ },
            CliError::InvalidNumber { option } => CliErrorSpec::InvalidNumber { option: option@ },
            CliError::MissingOption { command, option } => CliErrorSpec::MissingOption {
                command: command@,
                option: option@,
            },
            CliError::UnknownCommand { command } => CliErrorSpec::UnknownCommand { command: command@ },
        }
    }
}

/// The position of the first of `args` that equals `name`.
pub open spec fn first_position(args: Seq<Seq<char>>, name: Seq<char>) -> Option<int> {
    if exists|i: int| 0 <= i < args.len() && args[i] == name {
        Some(
            choose|i: int|
                0 <= i < args.len() && args[i] == name && (forall|j: int|
                    0 <= j < i ==> #[trigger] args[j] != name),
        )
    } else {
        None
    }
}

/// The value of option `name`: the argument after its first occurrence.
/// Nothing when the option is absent; refused when it is last or when the
/// next argument starts with `--`.
#[verifier::opaque]
pub open spec fn option_value_spec(args: Seq<Seq<char>>, name: Seq<char>) -> Result<Option<Seq<char>>, CliErrorSpec> {
    match first_position(args, name) {
        None => Ok(None),
        Some(i) => if i + 1 >= args.len() || seq!['-', '-'].is_prefix_of(args[i + 1]) {
            Err(CliErrorSpec::MissingValue { option: name })
        } else {
            Ok(Some(args[i + 1]))
        },
    }
}

/// The number that option `name` gives, or `default` when it is absent.
#[verifier::opaque]
pub open spec fn usize_option_spec(args: Seq<Seq<char>>, name: Seq<char>, default: usize) -> Result<usize, CliErrorSpec> {
    match option_value_spec(args, name) {
        Err(e) => Err(e),
        Ok(None) => Ok(default),
        Ok(Some(v)) => match parse_usize_spec(v) {
            Some(n) => Ok(n),
            None => Err(CliErrorSpec::InvalidNumber { option: name }),
        },
    }
}

/// The value of option `name`, or `default` when it is absent.
#[verifier::opaque]
pub open spec fn text_option_spec(args: Seq<Seq<char>>, name: Seq<char>, default: Seq<char>) -> Result<Seq<char>, CliErrorSpec> {
    match option_value_spec(args, name) {
        Err(e) => Err(e),
        Ok(None) => Ok(default),
        Ok(Some(v)) => Ok(v),
    }
}

/// The value of option `name`, which `command` needs.
#[verifier::opaque]
pub open spec fn required_option_spec(args: Seq<Seq<char>>, command: Seq<char>, name: Seq<char>) -> Result<Seq<char>, CliErrorSpec> {
    match option_value_spec(args, name) {
        Err(e) => Err(e),
        Ok(None) => Err(CliErrorSpec::MissingOption { command, option: name }),
        Ok(Some(v)) => Ok(v),
    }
}

/// The `infer` command: the model (by default `rule`) and the prompt.
pub open spec fn infer_spec(args: Seq<Seq<char>>) -> Result<CommandSpec, CliErrorSpec> {
    match text_option_spec(args, "--model"@, "rule"@) {
        Err(e) => Err(e),
        Ok(model) => match required_option_spec(args, "infer"@, "--prompt"@) {
            Err(e) => Err(e),
            Ok(prompt) => Ok(CommandSpec::Infer { model, prompt }),
        },
    }
}

/// The `batch` command: the model (by default `rule`) and the input file.
pub open spec fn batch_spec(args: Seq<Seq<char>>) -> Result<CommandSpec, CliErrorSpec> {
    match text_option_spec(args, "--model"@, "rule"@) {
        Err(e) => Err(e),
        Ok(model) => match required_option_spec(args, "batch"@, "--input"@) {
            Err(e) => Err(e),
            Ok(input) => Ok(CommandSpec::Batch { model, input }),
        },
    }
}

/// The `benchmark` command: the model (by default `rule`), the prompt (by
/// default `Rust is memory safe`), the number of requests (by default 20) and
/// of workers (by default 4, and at least 1).
pub open spec fn benchmark_spec(args: Seq<Seq<char>>) -> Result<CommandSpec, CliErrorSpec> {
    match text_option_spec(args, "--model"@, "rule"@) {
        Err(e) => Err(e),
        Ok(model) => match text_option_spec(args, "--prompt"@, "Rust is memory safe"@) {
            Err(e) => Err(e),
            Ok(prompt) => match usize_option_spec(args, "--requests"@, 20) {
                Err(e) => Err(e),
                Ok(requests) => match usize_option_spec(args, "--workers"@, 4) {
                    Err(e) => Err(e),
                    Ok(w) => Ok(
                        CommandSpec::Benchmark {
                            model,
                            prompt,
                            requests,
                            workers: if w >= 1 { w } else { 1 },
                        },
                    ),
                },
            },
        },
    }
}

/// The `history` command: how many records to show (by default 10).
pub open spec fn history_spec(args: Seq<Seq<char>>) -> Result<CommandSpec, CliErrorSpec> {
    match usize_option_spec(args, "--limit"@, 10) {
        Err(e) => Err(e),
        Ok(limit) => Ok(CommandSpec::History { limit }),
    }
}

/// The command that the arguments (program name excluded) ask for. Options are
/// read in the order of the command's fields, and the first refusal wins.
pub open spec fn parse_spec(args: Seq<Seq<char>>) -> Result<CommandSpec, CliErrorSpec> {
    if args.len() == 0 {
        Ok(CommandSpec::Help)
    } else if args[0] == "demo"@ {
        Ok(CommandSpec::Demo)
    } else if args[0] == "infer"@ {
        infer_spec(args)
    } else if args[0] == "batch"@ {
        batch_spec(args)
    } else if args[0] == "benchmark"@ {
        benchmark_spec(args)
    } else if args[0] == "history"@ {
        history_spec(args)
    } else if args[0] == "help"@ || args[0] == "--help"@ || args[0] == "-h"@ {
        Ok(CommandSpec::Help)
    } else {
        Err(CliErrorSpec::UnknownCommand { command: args[0] })
    }
}

/// A command or a refusal, matched against its specification.
pub open spec fn command_matches(r: Result<Command, CliError>, s: Result<CommandSpec, CliErrorSpec>) -> bool {
    match (r, s) {
        (Ok(c), Ok(t)) => c@ == t,
        (Err(e), Err(f)) => e@ == f,
        _ => false,
    }
}

/// A result as its parts' character sequences.
pub open spec fn result_view<T: View, E: View>(r: Result<T, E>) -> Result<T::V, E::V> {
    match r {
        Ok(v) => Ok(v@),
        Err(e) => Err(e@),
    }
}

fn find_arg(args: &[String], name: &str) -> (r: Option<usize>)
    ensures
        match (r, first_position(args.deep_view(), name@)) {
            (Some(i), Some(j)) => i == j && i < args.len(),
            (None, None) => true,
            _ => false,
        },
{
    let ghost a = args.deep_view();
    let mut i: usize = 0;
    while i < args.len()
        invariant
            i <= args.len(),
            a == args.deep_view(),
            a.len() == args.len(),
            forall|j: int| 0 <= j < i ==> #[trigger] a[j] != name@,
        decreases args.len() - i,
    {
        assert(a[i as int] == args@[i as int]@);
        if same_text(&args[i], name) {
            proof {
                let c = choose|c: int|
                    0 <= c < a.len() && a[c] == name@ && (forall|j: int| 0 <= j < c ==> #[trigger] a[j] != name@);
                assert(c == i) by {
                    if c > i {
                        assert(a[i as int] != name@);
                    }
                }
            }
            return Some(i);
        }
        i = i + 1;
    }
    None
}

/// The value of option `name`: the argument after its first occurrence.
pub fn option_value(args: &[String], name: &str) -> (r: Result<Option<String>, CliError>)
    ensures
        match (r, option_value_spec(args.deep_view(), name@)) {
            (Ok(Some(v)), Ok(Some(w))) => v@ == w,
            (Ok(None), Ok(None)) => true,
            (Err(e), Err(f)) => e@ == f,
            _ => false,
        },
{
    reveal(option_value_spec);
    let ghost a = args.deep_view();
    match find_arg(args, name) {
        None => Ok(None),
        Some(i) => {
            if i + 1 >= args.len() {
                return Err(CliError::MissingValue { option: name.to_owned() });
            }
            let value = chars_of(args[i + 1].as_str());
            let mut dash: Vec<char> = Vec::new();
            dash.push('-');
            dash.push('-');
            assert(dash@ =~= seq!['-', '-']);
            assert(a[i + 1] == args@[i + 1]@);
            if starts_with_chars(&value, &dash) {
                return Err(CliError::MissingValue { option: name.to_owned() });
            }
            Ok(Some(args[i + 1].clone()))
        },
    }
}

/// The number that option `name` gives, or `default` when it is absent.
pub fn parse_usize_option(args: &[String], name: &str, default: usize) -> (r: Result<usize, CliError>)
    ensures
        match (r, usize_option_spec(args.deep_view(), name@, default)) {
            (Ok(n), Ok(m)) => n == m,
            (Err(e), Err(f)) => e@ == f,
            _ => false,
        },
{
    reveal(usize_option_spec);
    match option_value(args, name) {
        Err(e) => Err(e),
        Ok(None) => Ok(default),
        Ok(Some(v)) => {
            let cs = chars_of(v.as_str());
            assert(cs@.subrange(0, cs.len() as int) =~= cs@);
            match parse_usize_chars(&cs, 0, cs.len()) {
                Some(n) => Ok(n),
                None => Err(CliError::InvalidNumber { option: name.to_owned() }),
            }
        },
    }
}

fn text_option(args: &[String], name: &str, default: &str) -> (r: Result<String, CliError>)
    ensures
        match (r, text_option_spec(args.deep_view(), name@, default@)) {
            (Ok(v), Ok(w)) => v@ == w,
            (Err(e), Err(f)) => e@ == f,
            _ => false,
        },
{
    reveal(text_option_spec);
    match option_value(args, name) {
        Err(e) => Err(e),
        Ok(None) => Ok(default.to_owned()),
        Ok(Some(v)) => Ok(v),
    }
}

fn required_option(args: &[String], command: &str, name: &str) -> (r: Result<String, CliError>)
    ensures
        match (r, required_option_spec(args.deep_view(), command@, name@)) {
            (Ok(v), Ok(w)) => v@ == w,
            (Err(e), Err(f)) => e@ == f,
            _ => false,
        },
{
    reveal(required_option_spec);
    match option_value(args, name) {
        Err(e) => Err(e),
        Ok(None) => Err(CliError::MissingOption { command: command.to_owned(), option: name.to_owned() }),
        Ok(Some(v)) => Ok(v),
    }
}

fn parse_infer(args: &[String]) -> (r: Result<Command, CliError>)
    ensures
        command_matches(r, infer_spec(args.deep_view())),
{
    let model = match text_option(args, "--model", "rule") {
        Ok(m) => m,
        Err(e) => return Err(e),
    };
    let prompt = match required_option(args, "infer", "--prompt") {
        Ok(p) => p,
        Err(e) => return Err(e),
    };
    Ok(Command::Infer { model, prompt })
}

fn parse_batch(args: &[String]) -> (r: Result<Command, CliError>)
    ensures
        command_matches(r, batch_spec(args.deep_view())),
{
    let model = match text_option(args, "--model", "rule") {
        Ok(m) => m,
        Err(e) => return Err(e),
    };
    let input = match required_option(args, "batch", "--input") {
        Ok(p) => p,
        Err(e) => return Err(e),
    };
    Ok(Command::Batch { model, input })
}

fn parse_benchmark(args: &[String]) -> (r: Result<Command, CliError>)
    ensures
        command_matches(r, benchmark_spec(args.deep_view())),
{
    let model = match text_option(args, "--model", "rule") {
        Ok(m) => m,
        Err(e) => return Err(e),
    };
    let prompt = match text_option(args, "--prompt", "Rust is memory safe") {
        Ok(p) => p,
        Err(e) => return Err(e),
    };
    let requests = match parse_usize_option(args, "--requests", 20) {
        Ok(n) => n,
        Err(e) => return Err(e),
    };
    let workers = match parse_usize_option(args, "--workers", 4) {
        Ok(n) => n,
        Err(e) => return Err(e),
    };
    Ok(Command::Benchmark { model, prompt, requests, workers: if workers >= 1 { workers } else { 1 } })
}

fn parse_history(args: &[String]) -> (r: Result<Command, CliError>)
    ensures
        command_matches(r, history_spec(args.deep_view())),
{
    let limit = match parse_usize_option(args, "--limit", 10) {
        Ok(n) => n,
        Err(e) => return Err(e),
    };
    Ok(Command::History { limit })
}

impl Cli {
    /// Reads the command from the arguments that follow the program name.
    pub fn parse_from(args: &[String]) -> (r: Result<Cli, CliError>)
        ensures
            match (r, parse_spec(args.deep_view())) {
                (Ok(c), Ok(s)) => c.command@ == s,
                (Err(e), Err(f)) => e@ == f,
                _ => false,
            },
    {
        let ghost a = args.deep_view();
        if args.len() == 0 {
            return Ok(Cli { command: Command::Help });
        }
        assert(a[0] == args@[0]@);
        let parsed = if same_text(&args[0], "demo") {
            Ok(Command::Demo)
        } else if same_text(&args[0], "infer") {
            parse_infer(args)
        } else if same_text(&args[0], "batch") {
            parse_batch(args)
        } else if same_text(&args[0], "benchmark") {
            parse_benchmark(args)
        } else if same_text(&args[0], "history") {
            parse_history(args)
        } else if same_text(&args[0], "help") || same_text(&args[0], "--help") || same_text(
            &args[0],
            "-h",
        ) {
            Ok(Command::Help)
        } else {
            Err(CliError::UnknownCommand { command: args[0].clone() })
        };
        assert(command_matches(parsed, parse_spec(a)));
        match parsed {
            Ok(command) => Ok(Cli { command }),
            Err(e) => Err(e),
        }
    }
}

/// A benchmark always runs with at least one worker, and a command line
/// without arguments asks for help.
pub proof fn lemma_parse_defaults(args: Seq<Seq<char>>)
    ensures
        parse_spec(args) matches Ok(CommandSpec::Benchmark { workers, .. }) ==> workers >= 1,
        args.len() == 0 ==> parse_spec(args) matches Ok(CommandSpec::Help),
{
}

proof fn lemma_first_position(args: Seq<Seq<char>>, name: Seq<char>, i: int)
    requires
        0 <= i < args.len(),
        args[i] == name,
        forall|j: int| 0 <= j < i ==> #[trigger] args[j] != name,
    ensures
        first_position(args, name) == Some(i),
{
    let c = choose|c: int|
        0 <= c < args.len() && args[c] == name && (forall|j: int| 0 <= j < c ==> #[trigger] args[j] != name);
    assert(args[i] == name);
    if c < i {
        assert(args[c] != name);
    } else if c > i {
        assert(args[i] != name);
    }
}

/// An option's value is the argument right after the option's first
/// occurrence; an option that is last, or followed by an argument that starts
/// with `--`, is refused for its missing value; an absent option gives
/// nothing.
pub proof fn lemma_option_value(args: Seq<Seq<char>>, name: Seq<char>, i: int)
    ensures
        (0 <= i < args.len() && args[i] == name && (forall|j: int| 0 <= j < i ==> #[trigger] args[j] != name))
            ==> option_value_spec(args, name) == (if i + 1 < args.len() && !seq!['-', '-'].is_prefix_of(
            args[i + 1],
        ) {
            Ok::<Option<Seq<char>>, CliErrorSpec>(Some(args[i + 1]))
        } else {
            Err(CliErrorSpec::MissingValue { option: name })
        }),
        (forall|j: int| 0 <= j < args.len() ==> #[trigger] args[j] != name) ==> option_value_spec(args, name)
            == Ok::<Option<Seq<char>>, CliErrorSpec>(None),
{
    reveal(option_value_spec);
    if 0 <= i < args.len() && args[i] == name && (forall|j: int| 0 <= j < i ==> #[trigger] args[j] != name) {
        lemma_first_position(args, name, i);
    }
}

/// For `infer`, the model is the argument after the first `--model` and the
/// prompt the argument after the first `--prompt`; the model is `rule` only
/// when no `--model` is given at all.
pub proof fn lemma_infer_options(args: Seq<Seq<char>>, m: int, p: int)
    requires
        args.len() > 0,
        args[0] == "infer"@,
        0 <= p < args.len() - 1,
        args[p] == "--prompt"@,
        forall|j: int| 0 <= j < p ==> #[trigger] args[j] != "--prompt"@,
        !seq!['-', '-'].is_prefix_of(args[p + 1]),
    ensures
        (0 <= m < args.len() - 1 && args[m] == "--model"@ && (forall|j: int| 0 <= j < m ==> #[trigger] args[j] != "--model"@)
            && !seq!['-', '-'].is_prefix_of(args[m + 1])) ==> parse_spec(args) == Ok::<CommandSpec, CliErrorSpec>(
            CommandSpec::Infer { model: args[m + 1], prompt: args[p + 1] },
        ),
        (forall|j: int| 0 <= j < args.len() ==> #[trigger] args[j] != "--model"@) ==> parse_spec(args)
            == Ok::<CommandSpec, CliErrorSpec>(CommandSpec::Infer { model: "rule"@, prompt: args[p + 1] }),
{
    reveal_strlit("infer");
    reveal_strlit("demo");
    reveal(text_option_spec);
    reveal(required_option_spec);
    lemma_option_value(args, "--prompt"@, p);
    lemma_option_value(args, "--model"@, m);
    assert(args[0] != "demo"@) by {
        assert(args[0][0] != "demo"@[0]);
    }
}

/// Option `name` first stands at position `i`, followed by a value that does
/// not start with `--`.
pub open spec fn first_option_at(args: Seq<Seq<char>>, name: Seq<char>, i: int) -> bool {
    &&& 0 <= i < args.len() - 1
    &&& args[i] == name
    &&& forall|j: int| 0 <= j < i ==> #[trigger] args[j] != name
    &&& !seq!['-', '-'].is_prefix_of(args[i + 1])
}

/// No argument is option `name`.
pub open spec fn option_absent(args: Seq<Seq<char>>, name: Seq<char>) -> bool {
    forall|j: int| 0 <= j < args.len() ==> #[trigger] args[j] != name
}

/// For `batch`, the model is the argument after the first `--model` (`rule`
/// when there is none) and the input file the argument after the first
/// `--input`; without `--input` the command is refused for that option.
pub proof fn lemma_batch_options(args: Seq<Seq<char>>, m: int, i: int)
    requires
        args.len() > 0,
        args[0] == "batch"@,
    ensures
        first_option_at(args, "--model"@, m) && first_option_at(args, "--input"@, i) ==> parse_spec(args)
            == Ok::<CommandSpec, CliErrorSpec>(CommandSpec::Batch { model: args[m + 1], input: args[i + 1] }),
        option_absent(args, "--model"@) && first_option_at(args, "--input"@, i) ==> parse_spec(args)
            == Ok::<CommandSpec, CliErrorSpec>(CommandSpec::Batch { model: "rule"@, input: args[i + 1] }),
        option_absent(args, "--model"@) && option_absent(args, "--input"@) ==> parse_spec(args)
            == Err::<CommandSpec, CliErrorSpec>(CliErrorSpec::MissingOption { command: "batch"@, option: "--input"@ }),
{
    reveal_strlit("batch");
    reveal_strlit("demo");
    reveal_strlit("infer");
    reveal(text_option_spec);
    reveal(required_option_spec);
    lemma_option_value(args, "--model"@, m);
    lemma_option_value(args, "--input"@, i);
    assert(args[0][0] != "demo"@[0]);
    assert(args[0][0] != "infer"@[0]);
}

/// For `history`, the limit is the number after the first `--limit` (10 when
/// there is none); a value that is not a number is refused.
pub proof fn lemma_history_limit(args: Seq<Seq<char>>, i: int)
    requires
        args.len() > 0,
        args[0] == "history"@,
    ensures
        first_option_at(args, "--limit"@, i) && parse_usize_spec(args[i + 1]) is Some ==> parse_spec(args)
            == Ok::<CommandSpec, CliErrorSpec>(CommandSpec::History { limit: parse_usize_spec(args[i + 1])->0 }),
        first_option_at(args, "--limit"@, i) && parse_usize_spec(args[i + 1]) is None ==> parse_spec(args)
            == Err::<CommandSpec, CliErrorSpec>(CliErrorSpec::InvalidNumber { option: "--limit"@ }),
        option_absent(args, "--limit"@) ==> parse_spec(args) == Ok::<CommandSpec, CliErrorSpec>(
            CommandSpec::History { limit: 10 },
        ),
{
    reveal_strlit("history");
    reveal_strlit("demo");
    reveal_strlit("infer");
    reveal_strlit("batch");
    reveal_strlit("benchmark");
    reveal(usize_option_spec);
    lemma_option_value(args, "--limit"@, i);
    assert(args[0][0] != "demo"@[0]);
    assert(args[0][0] != "infer"@[0]);
    assert(args[0][0] != "batch"@[0]);
    assert(args[0][0] != "benchmark"@[0]);
}

/// For `benchmark`, each option is read from the argument after its first
/// occurrence: the model, the prompt, the number of requests and of workers,
/// a worker count of 0 becoming 1; without options the command runs `rule` on
/// `Rust is memory safe` with 20 requests and 4 workers.
pub proof fn lemma_benchmark_options(args: Seq<Seq<char>>, m: int, p: int, r: int, w: int)
    requires
        args.len() > 0,
        args[0] == "benchmark"@,
    ensures
        first_option_at(args, "--model"@, m) && first_option_at(args, "--prompt"@, p) && first_option_at(
            args,
            "--requests"@,
            r,
        ) && first_option_at(args, "--workers"@, w) && parse_usize_spec(args[r + 1]) is Some && parse_usize_spec(
            args[w + 1],
        ) is Some ==> parse_spec(args) == Ok::<CommandSpec, CliErrorSpec>(
            CommandSpec::Benchmark {
                model: args[m + 1],
                prompt: args[p + 1],
                requests: parse_usize_spec(args[r + 1])->0,
                workers: if parse_usize_spec(args[w + 1])->0 >= 1 {
                    parse_usize_spec(args[w + 1])->0
                } else {
                    1
                },
            },
        ),
        option_absent(args, "--model"@) && option_absent(args, "--prompt"@) && option_absent(args, "--requests"@)
            && option_absent(args, "--workers"@) ==> parse_spec(args) == Ok::<CommandSpec, CliErrorSpec>(
            CommandSpec::Benchmark { model: "rule"@, prompt: "Rust is memory safe"@, requests: 20, workers: 4 },
        ),
{
    reveal_strlit("benchmark");
    reveal_strlit("demo");
    reveal_strlit("infer");
    reveal_strlit("batch");
    reveal(text_option_spec);
    reveal(usize_option_spec);
    lemma_option_value(args, "--model"@, m);
    lemma_option_value(args, "--prompt"@, p);
    lemma_option_value(args, "--requests"@, r);
    lemma_option_value(args, "--workers"@, w);
    assert(args[0][0] != "demo"@[0]);
    assert(args[0][0] != "infer"@[0]);
    assert(args[0].len() != "batch"@.len());
}

} // verus!
