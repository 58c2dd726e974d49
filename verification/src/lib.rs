//! A small line-search library: given a query string and a body of text,
//! report the lines that contain the query, either exactly or ignoring case,
//! together with the configuration value that drives the choice.

mod config;
mod matcher;
mod text;

pub use config::missing_argument_message;
pub use config::search_with_config;
pub use config::Config;
pub use matcher::ci_match_pred;
pub use matcher::ci_matching_lines;
pub use matcher::lemma_empty_pattern;
pub use matcher::lemma_no_ci_match_is_empty;
pub use matcher::lemma_no_match_is_empty;
pub use matcher::lemma_search_ci_sound_complete;
pub use matcher::lemma_search_sound_complete;
pub use matcher::lowered;
pub use matcher::match_pred;
pub use matcher::matching_lines;
pub use matcher::search;
pub use matcher::search_case_insensitive;
pub use matcher::subsequence_of;
pub use text::contains_str;
pub use text::has_substring;
pub use text::lines_from;
pub use text::lines_of;
pub use text::match_at;
pub use text::split_lines;
pub use text::strip_cr;
