//! A line matcher: given a query and a block of text, it returns the lines
//! of the text that contain the query, in their original order, either
//! byte-for-byte or under a simple case-insensitive comparison. The returned
//! lines are slices of the original text.

pub mod config;
pub mod matcher;
pub mod text;

pub use config::EnvConfig;
pub use matcher::search;
pub use matcher::search_case_insensitive;

use vstd::prelude::*;

verus! {

/// Selects the comparison mode that `cfg` asks for and returns the matching
/// lines of `contents` for the configured query, each a slice of `contents`.
pub fn run_search<'a>(cfg: &EnvConfig, contents: &'a str) -> (r: Vec<&'a str>)
    ensures
        cfg.ignore_case ==> r.deep_view() == matcher::search_ci_spec(cfg.query@, contents@),
        !cfg.ignore_case ==> r.deep_view() == matcher::search_spec(cfg.query@, contents@),
{
    if cfg.ignore_case {
        search_case_insensitive(cfg.query.as_str(), contents)
    } else {
        search(cfg.query.as_str(), contents)
    }
}

} // verus!
