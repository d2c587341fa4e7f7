//! Association-rule mining over a small column-oriented table of strings.
//!
//! A table maps each header to the column of values read under it. The
//! library counts how often values and combinations of values occur, builds
//! candidate rules from pairs of headers and from pairs of earlier rules, and
//! keeps the rules whose support reaches the minimum.

pub mod chained;
pub mod combinatorics;
pub mod csv_input;
pub mod filter_laws;
pub mod frame;
pub mod laws;
pub mod mining;
pub mod queries;
pub mod rules;
pub mod selection_laws;
pub mod superior;
pub mod text;

pub use chained::_recursive_filter_combined_occurrences;
pub use combinatorics::{combine, combine_superior_rules, values_combinations};
pub use csv_input::{load_records, read_csv, ReadError};
pub use frame::DataFrame;
pub use mining::{first_degree_rules, first_degree_stats, PairStats, RuleCounts, ValueStats};
pub use queries::{
    _filter_combined_occurrences, filter_occurrences, find_matching_rows, get_unique_values,
};
pub use rules::{get_rules_info, meets_min_support, pair_rule};
pub use superior::{mine_rounds, round_is_defined, superior_round, RoundsEnd, SuperiorRound, SuperiorStats};
