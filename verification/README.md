# sentryusb_drives

Turns the clips of a car's dashcam into drives: reads the telemetry out of the
video, groups clips into drives, and reports distances, assisted driving, charge
sessions and the state of the store that keeps them. The logic is written in Verus
and proved against its contracts.

- `src/` is the library.
  - `types` holds the records, `float` and `rounding` the binary64 and binary32
    arithmetic of distances and speeds, `clock` and `calendar` the times, `text` the
    texts.
  - `extract` and `media` read the telemetry of a clip, `aggregate` computes its
    scalars.
  - `gapfill`, `timeline`, `split`, `grouper` and `subclips` lead from clips to drives.
  - `summary`, `list`, `drive`, `track`, `overview`, `analytics`, `totals` and
    `overlap` report on drives; `summon` and `candidates` find those without a driver;
    `charging` reports on charge sessions.
  - `store`, `rows`, `blob`, `schema`, `backfill`, `import`, `intake`, `syncguard` and
    `processor` hold the rules of the store, its backups and the intake of clips.
  - `laws`, `gapfill_laws` and `starts` state what holds across them.
- `app/` is ordinary Rust around it: SQLite, JSON, files, the clock, and distances on
  the earth.
- `tests/` runs the library on examples.

Properties that span several functions are public proof functions whose names begin
with `law_`.
