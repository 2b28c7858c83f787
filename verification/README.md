# furet

furet is a fuzzy directory jumper for Windows shells: it records the
directories you visit and jumps back to the best match for a short fuzzy
query.

## Layout

- `src/` is the library, written in Verus and verified: path text handling,
  Unicode normalization, the two matching stages (an optimal-subsequence
  scorer and a typo-tolerant window distance, or nucleo's matcher in its
  place), the ranking order and the decision rule, the `--explain` report,
  soft-delete reconciliation, removal and exclusion patterns, `config.toml`
  settings, probable-failure calibration, and the zoxide import planner.
  Every public function states its result in its `ensures`; the two that
  consult a caller-supplied trait (`soft_delete::reconcile` asking whether
  directories exist, `project::root` asking for `.git` entries) tie every
  answer to the path it was asked about (each entry's own path; each
  ancestor, nearest first, up to the first one marked) and state their
  result as what `apply_presence` and `nearest_marked` make of those
  answers. The properties
  that span functions (the ranking is a stable sort on a strict total order
  of its keys, so candidates with distinct paths rank the same whatever
  their input order, a higher score always wins over recency, the dynamic program
  finds the best placement, reconciling twice changes nothing, importing
  twice records nothing new, ...) are public proof functions named
  `lemma_*`.
- `tests/` runs the library on concrete values.
- `app/` is the command-line program around the library: argument parsing,
  SQLite storage, the disk walk of the fallback, logging, and the PowerShell
  integration script.

Calls into `unicode-normalization`, `nucleo-matcher` and `toml` are made from
`src/` through small trusted wrappers whose contracts name what those crates
compute.
