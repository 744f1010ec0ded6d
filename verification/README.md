# git_pipeline

A CI/CD pipeline engine that keeps all of its state in git: each stage's
result is a commit on a `ci/<stage>` branch, the full result is a git note on
that commit, and build artifacts are annotated `artifact/<name>` tags.

The crate is verified with Verus.

- `src/` is the verified core. `pipeline` holds the stage DAG and orders it
  through petgraph's topological sort (`graph` holds the trusted petgraph
  boundary); `run` decides, stage by stage, whether a stage executes, is
  skipped because a dependency failed, or already has a result; `report`
  parses branch listings, summarises results and renders the report text;
  `artifact` names tags and the git invocations that manage them; `git`
  reads the outcome of a git invocation; `stage`, `error` and `text` hold the
  data types and the text handling they share.
- `app/` is the host: it runs git and the stage commands, touches files, and
  converts to and from JSON, following the decisions the core takes.
- `tests/` exercises the core on concrete values.
