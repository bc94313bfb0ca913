# samesame

Finds repeated fragments of code across files: every region of `--match`
or more consecutive identical lines (modulo leading and trailing whitespace)
and where each copy lives.

## Layout

- `src/` — the verified library (Verus):
  - `file.rs`: binary detection, lossy decoding, per-line trimming and xxh3 hashing;
  - `rolling_hash.rs`: XOR window fingerprints and the file registry;
  - `detection.rs`: bucketing windows by fingerprint, walking matching windows
    forward into maximal runs, one comparison result per pair of files;
  - `union_find.rs`, `grouping.rs`: consolidation of pairwise runs into
    duplicate groups (one group per class of connected regions, in report order);
  - `filter.rs`: keeping groups whose first line matches a regex, and reading
    back the lines of each group's first location for verbose output;
  - `output.rs`, `text.rs`: the text report and the JSON report model;
  - `discovery.rs`: glob patterns to scan, hidden files, removal of duplicate paths;
  - `paths.rs`, `error.rs`, `types.rs`: path order and equality (as std's
    `Path` defines them), errors, core types.
- `app/` — the command-line program: argument handling, file-system access,
  parallel reading, JSON serialization and printing.
- `tests/` — tests of the library.

Exit codes: `0` if no duplicates, `1` if any are reported, `2` on error.
