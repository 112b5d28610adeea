# bevytiles

Verified streaming logic of a geo-spatial terrain plugin for Bevy.

- `src/` — the library, verified with Verus:
  - `lod` — the quadtree level-of-detail walk (disc scan, subdivision;
    the distance questions are answered by a caller-supplied classifier);
  - `keys` — a hash map and set keyed by tile (the table is keyed by an
    integer code of the tile key);
  - `store` — resident/desired/loading bookkeeping and the per-frame steps
    (reconcile, promote, update the desired set, loading status);
  - `source` — tile requests, provider URLs, image decoding, and the fetch
    scheduler (`source::scheduler`): dedup, capacity, cancellation, the
    step rule of a running job, and the cache of native-zoom heightmaps that
    heightmap synthesis draws on (the engine side here does not synthesize,
    so it does not use that cache);
  - `text` — decimal rendering and first-token replacement;
  - `config` — the integer configuration.
- `app/` — the Bevy side: resources, systems, the terrain material,
  the floating-point distance and geodesy code, and the HTTP fetch tasks.
- `tests/` — tests of the library.
