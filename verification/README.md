# polysemic

Infrastructure for systems that are alive, written in Verus: every function
of the library carries a contract, and Verus proves each body against it,
except four small wrappers around std whose contracts are trusted:
`push_char` (`String::push`), `char_from_u32` (`char::from_u32`),
`debug_str` (`format!("{:?}")` of a `str`) and `to_lowercase`
(`str::to_lowercase`). The results of the last two are named by
`debug_text` and `lowercase`. Store adapters are the users' own code: the
`ErasureAdapter` trait states that an adapter's name and capabilities are
fixed for its life, and every implementation owes that.

- **digest** repairs malformed model output with every fix named, turns
  genuine ambiguity into questions, applies answers only where they were
  asked, and reconciles several samples by majority.
- **strata** labels provenance, compares ontology snapshots and drift
  envelopes, and resolves terms through a contestable legislature.
- **lethe** coordinates verified erasure across stores and issues receipts
  whose hashes do not depend on the order of the stores.
- **json** is the strict interior: one value, one parser, one printer.

## Layout

- `src/` — the verified library. `json.rs` and `json_laws.rs` hold the
  strict grammar, the parser, the printer and what each promises of the
  other; `repair.rs`, `lenient.rs`, `check.rs`, `schema.rs`, `digest.rs`,
  `answers.rs` and `reconcile.rs` make up digest; `ontology.rs`,
  `provenance.rs` and `drift_report.rs` make up strata; `erasure.rs` and
  `lethe.rs` make up lethe; `seam.rs` and `report.rs` build the envelopes
  the command-line tools print. Laws that relate several functions are
  public proof functions named `law_*`.
- `tests/` — tests on concrete values, run against the compiled library.
- `app/` — the command-line tools: argument handling, file reading, and
  the parts that work in floating point (distribution drift, memory
  salience and time-to-live); the memory store's erasure uses the
  library's verified `partition_marked` and `erasure_receipt`.
