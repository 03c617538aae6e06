//! Command-line arguments: `--host <alias>`, `--file <path>`, `--config <path>`,
//! `--cached`, `-h`/`--help`. Later occurrences of a flag win.

use crate::model::opt_view;
use crate::text::{chars_eq, chars_of};
use vstd::prelude::*;

verus! {

/// The options given on the command line.
#[derive(Debug)]
pub struct Args {
    pub host: Option<String>,
    pub file: Option<String>,
    pub cached: bool,
    pub config: Option<String>,
}

/// What `Args` holds, as values.
pub struct ArgsView {
    pub host: Option<Seq<char>>,
    pub file: Option<Seq<char>>,
    pub cached: bool,
    pub config: Option<Seq<char>>,
}

impl View for Args {
    type V = ArgsView;

    open spec fn view(&self) -> ArgsView {
        ArgsView {
            host: opt_view(self.host),
            file: opt_view(self.file),
            cached: self.cached,
            config: opt_view(self.config),
        }
    }
}

/// What the command line asks for.
#[derive(Debug)]
pub enum Cli {
    Run(Args),
    /// Print the usage text and exit.
    Help,
}

/// Why the command line is refused.
#[derive(Debug, PartialEq, Eq)]
pub enum CliError {
    /// A flag that takes a value came last.
    MissingValue(String),
    /// An argument that is not a known flag.
    Unknown(String),
}

/// What the command line asks for, as values (`None` for help).
pub open spec fn cli_view(r: Result<Cli, CliError>) -> Result<Option<ArgsView>, (bool, Seq<char>)> {
    match r {
        Ok(Cli::Run(a)) => Ok(Some(a@)),
        Ok(Cli::Help) => Ok(None),
        Err(CliError::MissingValue(f)) => Err((true, f@)),
        Err(CliError::Unknown(a)) => Err((false, a@)),
    }
}

/// The command line `args` (without the program name) read onto `acc`, left to
/// right: options, `None` at a help flag, or the first refusal (`(true, flag)`
/// for a missing value, `(false, arg)` for an unknown argument).
pub open spec fn parse_from(args: Seq<Seq<char>>, acc: ArgsView) -> Result<Option<ArgsView>, (bool, Seq<char>)>
    decreases args.len(),
{
    if args.len() == 0 {
        Ok(Some(acc))
    } else {
        let a = args[0];
        if a == "--host"@ || a == "--file"@ || a == "--config"@ {
            if args.len() < 2 {
                Err((true, a))
            } else {
                let v = Some(args[1]);
                let next = if a == "--host"@ {
                    ArgsView { host: v, ..acc }
                } else if a == "--file"@ {
                    ArgsView { file: v, ..acc }
                } else {
                    ArgsView { config: v, ..acc }
                };
                parse_from(args.skip(2), next)
            }
        } else if a == "--cached"@ {
            parse_from(args.skip(1), ArgsView { cached: true, ..acc })
        } else if a == "-h"@ || a == "--help"@ {
            Ok(None)
        } else {
            Err((false, a))
        }
    }
}

/// Nothing given.
pub open spec fn no_args() -> ArgsView {
    ArgsView { host: None, file: None, cached: false, config: None }
}

fn is_flag(a: &String, lit: &str) -> (r: bool)
    ensures
        r == (a@ == lit@),
{
    chars_eq(&chars_of(a.as_str()), &chars_of(lit))
}

/// Reads the command line (without the program name).
pub fn parse_args(args: &Vec<String>) -> (r: Result<Cli, CliError>)
    ensures
        cli_view(r) == parse_from(args@.map_values(|s: String| s@), no_args()),
{
    let ghost all = args@.map_values(|s: String| s@);
    let mut acc = Args { host: None, file: None, cached: false, config: None };
    let mut i: usize = 0;
    assert(all.skip(0) =~= all);
    assert(acc@ == no_args());
    while i < args.len()
        invariant
            i <= args@.len(),
            all == args@.map_values(|s: String| s@),
            parse_from(all, no_args()) == parse_from(all.skip(i as int), acc@),
        decreases args@.len() - i,
    {
        let a = &args[i];
        let ghost rest = all.skip(i as int);
        assert(rest[0] == a@);
        if is_flag(a, "--host") || is_flag(a, "--file") || is_flag(a, "--config") {
            if i + 1 >= args.len() {
                return Err(CliError::MissingValue(a.clone()));
            }
            let v = args[i + 1].clone();
            assert(rest[1] == v@);
            assert(rest.skip(2) =~= all.skip(i + 2));
            if is_flag(a, "--host") {
                acc.host = Some(v);
            } else if is_flag(a, "--file") {
                acc.file = Some(v);
            } else {
                acc.config = Some(v);
            }
            i = i + 2;
        } else if is_flag(a, "--cached") {
            assert(rest.skip(1) =~= all.skip(i + 1));
            acc.cached = true;
            i = i + 1;
        } else if is_flag(a, "-h") || is_flag(a, "--help") {
            return Ok(Cli::Help);
        } else {
            return Err(CliError::Unknown(a.clone()));
        }
    }
    Ok(Cli::Run(acc))
}

} // verus!
