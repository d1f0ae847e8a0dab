# picea

The bookkeeping core of a 2D physics engine, verified with Verus.

`src/` holds the integer logic of the engine, each function with a contract that Verus
proves:

- `handles`: typed handles packing a slot index and a generation into a `u64`.
- `body`, `joint`, `collider`, `recipe`, `query`, `debug`, `events`, `world`: body
  categories, body flags and attachments, joint endpoints, collision filters and layer
  presets, query filters, debug read-model options and counters, event reasons, and
  validation errors.
- `element`: an id-indexed element store with a sort-order cache.
- `constraints::contact_manifold`: the lifecycle of contact pairs across collision passes
  (when a pair may warm start and when held-back contact points are handed over).
- `pipeline`: deterministic sleep islands (union-find over contacts and joints), the
  per-island sleep decision, the island solve plan with its body slots and rows, joint
  solve batches, broadphase depth budget, narrowphase feature ids and step counters.
- `math::matrix`: a fixed-size matrix.

Public `lemma_*` proof functions state the laws of the library, such as that a stronger
wake reason always wins, that islands never join through static bodies, that every row
of a solve plan names by its slots the bodies it was made for, and that a pair warm
starts exactly when it keeps touching from one pass to the next.

`app/` holds what computes on floats or needs serde: vector math, body and joint
descriptors with their validation, the step pipeline and its configuration, the float
side of the sleep refresh, and serializable copies of the library's data types.

`tests/` exercises the library on concrete values.
