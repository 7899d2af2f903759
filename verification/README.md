# episodic_observer

Cross-session episodic detectors, verified with Verus. Sessions leave
transcripts behind, one JSON object per line; this crate reads them, correlates
what happened across sessions, and renders what it finds as proposal files.

- `src/transcript.rs` reads transcripts into sessions; `src/json.rs` holds the
  boundary to `serde_json`.
- `src/corrective.rs`, `src/redundant.rs` and `src/rescue.rs` are the detectors;
  `src/observe.rs` runs all three and orders the report.
- `src/proposal.rs` renders candidates; `src/since.rs` parses durations;
  `src/clock.rs` tells the time.
- `src/model.rs`, `src/order.rs` and `src/text.rs` hold the types, sequences and
  texts that the rest is written in.
- `src/laws.rs` states and proves what holds of the library as a whole;
  `src/permutation.rs` what the order of the sessions and the width of a window
  change.
- `app/` is the file-system side, in ordinary Rust.

Every function under `src/` has a contract that Verus proves, but for the small
wrappers around `serde_json`, the system clock and `String::push`, whose doc
comments say what they claim.
