//! The command line's shape and the long version text.

use crate::text::append;
use vstd::prelude::*;

verus! {

/// The parsed command line.
pub struct Cli {
    pub command: Commands,
}

/// The subcommands.
pub enum Commands {
    /// Run a command and profile its memory.
    Run {
        interval: u64,
        json: bool,
        quiet: bool,
        csv: Option<String>,
        timeline: Option<String>,
        silent: bool,
        exclude_pattern: Option<String>,
        include_pattern: Option<String>,
        command: Vec<String>,
    },
}

/// `value`, or `unknown` when there is none.
pub open spec fn or_unknown(value: Option<Seq<char>>) -> Seq<char> {
    match value {
        Some(v) => v,
        None => "unknown"@,
    }
}

impl Cli {
    /// The long version text: the version, then the build date and the
    /// build target, each `unknown` when not given.
    pub fn get_long_version(version: &str, build_date: Option<&str>, target: Option<&str>) -> (r: String)
        ensures
            r@ == version@ + "\nBuild date:   "@ + or_unknown(
                match build_date { Some(d) => Some(d@), None => None },
            ) + "\nTarget:       "@ + or_unknown(match target { Some(t) => Some(t@), None => None }),
    {
        let mut s = version.to_owned();
        append(&mut s, "\nBuild date:   ");
        match build_date {
            Some(d) => append(&mut s, d),
            None => append(&mut s, "unknown"),
        }
        append(&mut s, "\nTarget:       ");
        match target {
            Some(t) => append(&mut s, t),
            None => append(&mut s, "unknown"),
        }
        s
    }
}

} // verus!
