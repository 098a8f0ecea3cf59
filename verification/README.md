# phpcognit

Cognitive complexity for PHP: every function and method of a file gets a score
for how hard it is to read, following SonarSource's definition of the metric.
The library is written in Verus, and its contracts state what each score is.

## Layout

```text
src/
├── lib.rs         the PHP parser (tree-sitter) and the entry points
├── syntax.rs      the parsed file as plain nodes in preorder, and the tree they form
├── walk.rs        the scoring rules: what each construct costs, and at what nesting
├── complexity.rs  findings: units, their names and classes, suppression markers
├── baseline.rs    recorded scores, paths relative to the working directory,
│                  and what counts as a regression
├── gate.rs        whether a scan may report at all, the worst-first ranking,
│                  and which findings a run reports and fails on
├── kinds.rs       every grammar node kind string, in one place
└── text.rs        string helpers stated on their character view
app/main.rs        the command line: file discovery, baseline files, output
tests/             scoring, suppression, baseline and grammar cases
```

Parsing is done by tree-sitter with the PHP grammar; the tree comes back as a
list of plain nodes, and everything after that is verified: the walk that
scores a function, the reading of `phpcognit-ignore` markers, and the baseline,
which keeps the highest score recorded for a function so that every recorded
finding stays accepted.
Scores are stated as mathematical integers; one that would not fit in a `u32`
is reported as `u32::MAX`.
