# bgp-lab

A sandbox for simplified BGP import and export policies. A scenario is a topology with
sessions, policies, announcements and events; the engine propagates routes over it in
virtual time and says, with evidence, which routes each node selects and publishes and
whether the whole comes to rest.

## Layout

- `src/` is the library, verified with Verus.
  - `text`, `value`, `ordmap`, `json`: strings and their order, exact copies and
    comparisons, ordered maps, JSON trees.
  - `model`: topology, policies, announcements, events and edits.
  - `policy`: ordered rule evaluation with a trace of every rule.
  - `bestpath`: the selection stages and their evidence.
  - `queue`, `rib`, `export`, `step`, `engine`: the event queue, the routing state of a
    node, publication, the answer to one message, and the run of a scenario.
  - `signature`, `recurrence`: the signature of a global state, and why a state that comes
    back is a cycle.
  - `constraints`: what holds of every run, whatever the policies.
  - `scenario`: branches of a scenario and the comparison of drafts.
  - `fingerprint`, `encode`, `evidence`: canonical JSON, SHA-256 fingerprints and what a
    run hands out.
  - `api`, `router`, `store`: what the HTTP API decides, and the rows of the store.
  - `fixtures`: the built-in scenarios.
- `app/` is the program around it: the HTTP server, the SQLite store and the JSON forms of
  the library's types.
- `tests/` run the library on concrete scenarios.

## What is proved

Every function of the library has a contract over mathematical views of its arguments.
Beyond that, proof functions named `law_*` state what holds across functions, for example
that the first terminating rule decides, that selection does not depend on the order of
the candidates, that processing a message keeps the global state sound, that time runs
forward, that no run selects an eBGP route that loops or passes iBGP routes on over iBGP,
that every verdict is borne out by its evidence, and that a branch leaves its base
untouched.

Three functions of other crates and of the standard library are trusted: string escaping
by `serde_json::to_string`, the digest of `sha2`, and the debugging form of strings.

## Running

`--listen <address>` (default `127.0.0.1:5352`) and `--db <path>` (default
`bgp-lab.sqlite`) start the server; `dump [name]` writes a built-in scenario and its run as
JSON. The browser page is served from the directory `static`.
