# governance

What the repositories of an organisation should look like, and the drift
between that and what they have.

`baseline.txt` holds the desired state, one directive per line: `repo`,
`setting`, `org`, `present`, `rule`, `file` and `pending`. The library
parses it, compares it with the readings taken from GitHub, decides what a
plan reports and what an apply may write, and takes a repository out of the
baseline without touching anything else in the text.

## Layout

- `src/` -- the library, verified with Verus.
  - `text.rs` -- lines, whitespace-separated fields, trimming, joining and
    ordering, each with the model the contracts are stated over.
  - `reading.rs` -- a reading (`BTreeMap<String, String>`) and its model.
  - `baseline.rs` -- the format, `parse`, and the drift of each kind, with
    the proofs that blank and comment lines change nothing parsed and that
    a key the reading does not carry is always drift.
  - `baseline/offboard.rs` -- `offboard`, with the proofs that the text it
    returns parses to the same baseline less the repository, and that two
    repositories offboarded in either order leave the same text.
  - `github.rs` -- what is asked of GitHub, and how the answers are merged.
  - `plan.rs` -- what a plan reports and what an apply may do.
- `app/` -- the binary: reads `baseline.txt`, runs `gh`, prints and writes.
- `tests/` -- the library's tests.
