# ocel_etl_backlog

Backlog → OCEL 2.0 connector: pulls a Backlog project's issues and comments
and stages them, through `ocel_etl`'s staging log, as an object-centric event
log. Status, assignee, priority, milestone and due-date changes recorded in
comment change logs become events and dynamic task attributes; other change
fields are counted and reported.

Layout:

- `src/` — the verified library (Verus).
  - `models.rs` — Backlog records as plain data; `Timestamp`, a UTC instant.
  - `staging.rs` — `ocel_etl::StagingLog`, seen through a model of what it
    holds; every call the library makes on it is specified over that model.
  - `mapper.rs` — the mapping, specified as the exact sequence of staging
    calls it makes for a project, an issue, a comment, a change.
  - `counts.rs` — skipped-field counts kept in byte order of the names.
  - `sync.rs` — incremental sync: pruning refreshed issues, the merge base,
    re-linking parents, choosing what to refresh.
  - `validation.rs` — an OCEL log seen through a model of what it holds;
    re-staging a log and turning a staging log into a validated one.
  - `incremental.rs` — an incremental pull stages the same events as a full
    re-pull.
  - `streaming.rs` — mapping issue by issue against mapping in one call, and
    what is reported as skipped.
  - `client.rs` — API requests, pagination and rate-limit decisions.
  - `laws.rs` — properties of the mapping as a whole.
  - `event_ids.rs` — every event staged for a project gets an id of its own.
  - `text.rs` — decimal text, key prefixes, trimming.
- `app/` — the `ocel-backlog` command: environment, HTTP (`reqwest`), waits,
  JSON decoding (`serde`), log files, progress output.
- `tests/` — tests of the library against the real `ocel` / `ocel_etl` crates.
