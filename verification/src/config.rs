//! What a run of the search is asked to do, as read from its arguments.

use vstd::prelude::*;
use crate::search::{
    case_insensitive_matches,
    case_sensitive_matches,
    search_case_insensitive,
    search_case_sensitive,
};
use crate::substring::same_text;

verus! {

/// The fourth argument that asks for a search without regard to case.
pub const CASE_INSENSITIVE_FLAG: &'static str = "CASE_INSENSITIVE";

/// The message of the error for an argument list that is too short.
pub const NOT_ENOUGH_ARGUMENTS: &'static str = "Not enough arguments.";

/// The query, the name of the file to search, and whether letter case counts.
pub struct Config {
    pub query: String,
    pub filename: String,
    pub case_sensitive: bool,
}

/// A `Config` as plain values.
pub struct ConfigView {
    pub query: Seq<char>,
    pub filename: Seq<char>,
    pub case_sensitive: bool,
}

impl View for Config {
    type V = ConfigView;

    open spec fn view(&self) -> ConfigView {
        ConfigView {
            query: self.query@,
            filename: self.filename@,
            case_sensitive: self.case_sensitive,
        }
    }
}

impl ConfigView {
    /// The lines of `contents` that this configuration selects.
    pub open spec fn matches(self, contents: Seq<char>) -> Seq<Seq<char>> {
        if self.case_sensitive {
            case_sensitive_matches(self.query, contents)
        } else {
            case_insensitive_matches(self.query, contents)
        }
    }
}

/// The configuration that an argument list stands for. The list begins with
/// the program's name, then the query, then the file's name. Letter case
/// counts unless a fourth argument is exactly `CASE_INSENSITIVE_FLAG`; any
/// other fourth argument, and whatever follows it, changes nothing. A list of
/// fewer than three arguments stands for no configuration.
pub open spec fn config_of(args: Seq<Seq<char>>) -> Option<ConfigView> {
    if args.len() < 3 {
        None
    } else {
        Some(
            ConfigView {
                query: args[1],
                filename: args[2],
                case_sensitive: !(args.len() >= 4 && args[3] == CASE_INSENSITIVE_FLAG@),
            },
        )
    }
}

impl Config {
    /// Reads a configuration from an argument list, with its own copies of
    /// the query and the file's name. Fails, with `NOT_ENOUGH_ARGUMENTS`,
    /// exactly on a list of fewer than three arguments.
    pub fn new(args: &[String]) -> (made: Result<Config, &'static str>)
        ensures
            made is Err <==> args@.len() < 3,
            match made {
                Ok(config) => config_of(args.deep_view()) == Some(config@),
                Err(message) => message@ == NOT_ENOUGH_ARGUMENTS@,
            },
    {
        if args.len() < 3 {
            return Err(NOT_ENOUGH_ARGUMENTS);
        }
        let query = args[1].clone();
        let filename = args[2].clone();
        let mut case_sensitive = true;
        if args.len() >= 4 && same_text(args[3].as_str(), CASE_INSENSITIVE_FLAG) {
            case_sensitive = false;
        }
        Ok(Config { query, filename, case_sensitive })
    }

    /// The lines of `contents` that hold the query, with or without regard
    /// to case as this configuration says.
    pub fn search<'a>(&self, contents: &'a str) -> (results: Vec<&'a str>)
        ensures
            results.deep_view() == self@.matches(contents@),
    {
        if self.case_sensitive {
            search_case_sensitive(self.query.as_str(), contents)
        } else {
            search_case_insensitive(self.query.as_str(), contents)
        }
    }
}

} // verus!
