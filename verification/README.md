# manifold

The decision logic of the Manifold suite — Lobby's advisory engine,
Cityhall's change planner, Groundwork's graph queries, Union's rollups, the
edge identity and cache rules, and the integration adapters — as a library
verified with Verus.

## Layout

- `src/` — the verified library.
  - `lobby/` — the graph snapshot, the six derivation rules, strongly
    connected components, reconciliation of derived advisories with those on
    record, the writes of each lifecycle step, and program seeding.
  - `cityhall/` — entity validation, the org-chart ancestor walk and bylaw
    cascade, the dependency walk and deployment ordering of a change
    request, plan assembly, cycle diagrams and the Mermaid gantt.
  - `groundwork/` — blast radius, dependencies and deployment order over
    the catalogue, and the catalog tools' argument checks and search.
  - `union/` — team capacity, team members and a person's assignments.
  - `edge/` — identity from trusted headers, the Access role, and the
    read-through cache's key and admission rules.
  - `adapters/` — GraphQL escaping, pagination links, idempotent upserts,
    GitHub/GitLab status and duration mapping, GitLab path encoding, and
    the upserts each importer (GitHub Actions, GitLab CI and projects,
    Okta) makes, keyed by natural keys.
  - `ui.rs`, `json.rs`, `text.rs` — the index page's base href, JSON
    members as the library reads them, and text helpers with their models.
- `tests/` — tests of the library on concrete values.
- `app/` — what surrounds the library: JSON wire formats, configuration
  from the environment, and the drivers that perform the library's
  decisions against stores and other services (reached through traits).

Each public function states its result in its `ensures` over spec
functions; the properties that span functions (reconciliation acts on each
wanted key once, deployment orders put dependencies first and order every
acyclic graph, components are exactly the classes of mutually reachable
deployables, a finished walk requests exactly the targets and the
dependencies of the deployables found, each once,
blast radius reports each deployable once, the gantt is deterministic,
callers with different identities never share a cache key, re-imports
keep their natural keys, and others) are public proof functions next to
the code they are about.
