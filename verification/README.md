# dslop

Detect AI writing patterns (slop) in prose: em-dashes, double-hyphen
dashes, "it's not X, it's Y" constructions and a dozen other rhetorical
tells, plus statistical tells such as uniform sentence rhythm and flat
word-frequency distributions.

The detection logic is a library verified with Verus: every detector,
the sentence and paragraph splitters, front-matter blanking, the
configuration merge, the integer side of the statistics and the report
bookkeeping carry `requires`/`ensures` contracts that Verus proves. The
regular-expression detectors and paragraph splitting are proved relative to
the matches `regex-lite` reports, which the contracts name but do not
describe; likewise the Unicode alphanumeric test, lowercasing,
`Path::extension` and `Path::parent` come from std and are named, not proved.

## Layout

- `src/` — the verified library.
  - `text`, `chars`: byte/character model, line and column positions,
    whitespace and word counting.
  - `bytescan`, `matcher`: byte-shape detectors and line-by-line regular
    expression matching (through `regex-lite`).
  - `prose`: sentence and paragraph splitting.
  - `patterns`, `rhetoric`, `cadence`: the pattern table and the
    sentence- and paragraph-level detectors.
  - `config`: which patterns and metrics are enabled, how a configuration
    file's settings apply, and which directories are searched for it.
  - `metrics`, `frequency`: sentence word counts, tokens, and per-chunk
    counts of the most frequent words.
  - `check`, `report`: findings per file, front matter, which files get
    which checks, and the totals and fix advice a report prints.
- `app/` — the command-line program: argument parsing, file walking,
  `dslop.toml` parsing, the floating-point statistics and terminal output.
- `tests/` — tests of the library on concrete texts.
