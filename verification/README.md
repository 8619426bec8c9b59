# roommate

Room, door, window and FF&E data assembled from stored model snapshots, with
every rule that decides what a read serves stated as a contract and proved
with Verus.

## Layout

- `src/` — the verified library.
  - `state` holds the registered projects, the snapshot histories and the
    per-model index of latest snapshots; `scope` plans which snapshot each
    model contributes to a read (latest, or a milestone's pin) and hashes the
    plan into a revision (`cursor`).
  - `rooms`, `openings`, `doors`, `items`, `ceilings` assemble the
    per-entity reads: reference joins (`reference`, `join`), owner rooms
    under the project's
    attribution policy (`attribution`, `settings`), building scoping and the
    shared property filter (`filter`, `decimal`); a ceiling's rooms are
    handed in from plan geometry, and the answer is also turned round room by
    room.
  - `reports` builds schedules and by-room reports (set-valued filter rules,
    grouped rows, CSV) and the column catalog; `comparison` diffs milestones
    against a baseline; `milestones`, `drofus` list what is configured and
    uploaded.
  - `areas` holds the hierarchy exclusion rules and plans which rooms make up
    each area group at each tier of each level; `placement` chooses each
    project's anchor model and which models move into its frame;
    `elevations` builds the per-model level elevations room probes match
    storeys by.
  - `laws` states what holds across calls: a read gives back what a push
    wrote, a push leaves everything else alone, plans stay inside their
    scope, a cursor moves only with its own project's registered models,
    served openings and items follow their project's policy, every item is
    served or counted as excluded, comparisons list keys in order with
    ambiguous keys kept out, a limit changes how many report rows show and
    never which, the filter and report rules, the area plan's membership,
    the anchor choice, and the agreement of the two ceiling answers.
- `tests/` — the test suite, run against the compiled library.
- `app/` — the edges: wire shapes for clients (serde), the error type a
  server reports, and the floating-point plan geometry the library's
  decisions are carried out over: which room an element stands in (handed to
  the library as derived answers), shared walls between rooms, the rooms a
  ceiling covers, each planned area group's footprint, and each model's move
  into its project's frame.
