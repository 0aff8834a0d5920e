pub mod ballot_metadata;
pub mod text;
pub mod ballot_paper;
pub mod tally;
pub mod signed_version;
pub mod distribution_of_preferences_transcript;
pub mod ballot_pile;
pub mod transfer_value;
pub mod util;
pub mod compare_transcripts;
pub mod random_util;
pub mod tie_resolution;
pub mod simple_list_of_votes;
pub mod nz_prng;
pub mod countback;
pub mod fixed_precision_decimal;
pub mod election_data;
pub mod monte_carlo;
pub mod extract_votes_in_pile;
pub mod datasource_description;
pub mod preference_distribution;
pub mod parse_util;
pub mod find_vote;
pub mod list_of_meek_vote_sources;
pub mod set_aside;
pub mod official_dop_transcript;
pub mod who_got_votes;
pub mod intent_table;
pub mod simple_statistics;
pub mod errors_btl;
pub mod vic_data;
pub mod compare_rules;
