# stv

A library for counting Single Transferable Vote elections the way Australian electoral
commissions do, with every function verified by Verus against its contract.

Layout of `src/`:

- `preference_distribution.rs`: the count itself. `distribute_preferences` runs a whole
  distribution of preferences under a set of rules (`PreferenceDistributionRules`): first
  preferences, then surplus distributions and exclusions, until the vacancies are filled.
- `ballot_pile.rs`, `tally.rs`, `transfer_value.rs`, `set_aside.rs`: piles of ballot papers,
  tallies, transfer values (exact fractions in lowest terms) and papers set aside.
- `tie_resolution.rs`, `countback.rs`, `nz_prng.rs`, `random_util.rs`: resolving ties, by
  countback, by decisions of the electoral commission, or by lot.
- `distribution_of_preferences_transcript.rs`, `compare_transcripts.rs`, `compare_rules.rs`,
  `official_dop_transcript.rs`: transcripts of counts and their comparison, with each other,
  under alternative rules, and with official transcripts.
- `election_data.rs`, `ballot_metadata.rs`, `ballot_paper.rs`, `parse_util.rs`, `vic_data.rs`:
  the data of an election and reading it from the records and spreadsheets that electoral
  commissions publish.
- `who_got_votes.rs`, `intent_table.rs`, `simple_statistics.rs`, `errors_btl.rs`,
  `find_vote.rs`, `monte_carlo.rs`: statistics about the votes.
- `text.rs`, `util.rs`: text and list helpers.

The tests under `tests/` run the library on small elections and files.

`app/` holds the statistics that are computed in floating point (the correlation of the
preferences given to candidates or groups), written around the library.
