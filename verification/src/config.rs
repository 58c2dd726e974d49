//! The validated configuration value that drives a search run.

use crate::matcher::ci_matching_lines;
use crate::matcher::matching_lines;
use crate::matcher::search;
use crate::matcher::search_case_insensitive;
use vstd::prelude::*;

verus! {

/// The error message handed back when too few arguments are supplied.
pub open spec fn missing_argument_message() -> Seq<char> {
    "Args: query, filepath. Not enough arguments."@
}

/// A search run's settings: what to look for, where, and whether to ignore
/// case. Built once per invocation and never mutated.
pub struct Config {
    /// The substring being searched for.
    pub query: String,
    /// The path of the file whose lines are searched.
    pub filepath: String,
    /// Whether matching ignores case.
    pub ignore_case: bool,
}

impl Config {
    /// Assemble a configuration from the raw argument list: position 1 is the
    /// query and position 2 is the file path, after the conventional program
    /// identifier at position 0. Fewer than 3 elements is the one rejected
    /// input. The ambient case flag (the presence of the `MG_IGNORE_CASE`
    /// environment variable) is read by the caller and passed in, so that the
    /// resolver itself stays pure.
    pub fn build(args: &[String], ignore_case: bool) -> (r: Result<Config, &'static str>)
        ensures
            r is Ok <==> args@.len() >= 3,
            r is Ok ==> {
                &&& r->Ok_0.query@ == args@[1]@
                &&& r->Ok_0.filepath@ == args@[2]@
                &&& r->Ok_0.ignore_case == ignore_case
            },
            r is Err ==> r->Err_0@ == missing_argument_message(),
    {
        if args.len() < 3 {
            return Err("Args: query, filepath. Not enough arguments.");
        }
        let query = args[1].clone();
        let filepath = args[2].clone();
        Ok(Config { query, filepath, ignore_case })
    }
}

/// Run the matcher that the configuration selects over `contents`: the
/// case-insensitive one when `ignore_case` is set, the exact one otherwise.
pub fn search_with_config<'a>(config: &Config, contents: &'a str) -> (r: Vec<&'a str>)
    ensures
        config.ignore_case ==> r.deep_view() == ci_matching_lines(config.query@, contents@),
        !config.ignore_case ==> r.deep_view() == matching_lines(config.query@, contents@),
{
    if config.ignore_case {
        search_case_insensitive(config.query.as_str(), contents)
    } else {
        search(config.query.as_str(), contents)
    }
}

} // verus!
