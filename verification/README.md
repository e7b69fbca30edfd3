# bizplan

Generates business plans with a model program, scores them with a rubric, and improves them in a
loop. Everything that decides or computes is a library verified with Verus; a thin command line
around it runs the model program and reads and writes files.

## Layout

- `src/` — the verified library
  - `contest` — the description of a contest: sections, criteria, weights
  - `checks` — the deterministic checks of a plan
  - `generate`, `enclosure` — the prompts for drafts and revisions, and how they enclose untrusted
    text
  - `llm` — how the model program is called and how its output is read
  - `score`, `schema` — what the judges are asked and how their replies become a score
  - `loop_run` — the self-improvement loop
  - `cli`, `report` — the rules of the command line and the reports
  - `binary64`, `signed`, `render`, `nearness`, `range`, `trimming` — binary64 arithmetic on bit
    patterns, its decimal rendering, and what holds of means and totals
  - `order`, `text`, `json` — stable ordering, text, and JSON values
- `app/` — the command line
- `tests/` — tests of the library on concrete values

## What is proved

Each function states exactly what it returns. Beyond that, functions named `law_…` state properties
that span several functions: untrusted text cannot leave its block in a prompt, a heading stands for
at most one section, each criterion is scored from every round that counts, totals of at most 2^41
criteria with at most 2^46 scores each stay between zero and one hundred (with 2^42 criteria the
rounding of the sums can carry a total above it), the loop returns its best round and never exceeds
its limit, and others.

Trusted, not proved, are the contracts of the `serde_json` functions that the library calls, in
`json`, and that of `String::push`, in `text`.
