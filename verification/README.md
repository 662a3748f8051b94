# brackens_engine

The bookkeeping at the heart of a small game engine, verified with Verus.

- `src/handle.rs`: asset handles and the reference-count signals they send.
  Each handle and each sender records, as ghost state, the signals it has
  handed to its storage's channel, so the contracts say which signal every
  operation sends. That the channel delivers them, in order, to the storage
  is taken from crossbeam and not proved.
- `src/asset_storage.rs`: storages that count strong handles per asset from
  the signals they receive, unload unused assets, and load each file once
  while it is in use.
- `src/hierarchy.rs`: parent/child relations kept as circular sibling
  lists, with attach, detach, removal and walks up and down.
- `src/transform_updates.rs`: which global transforms to recompute after
  local transforms change, and in what order.
- `src/draw_buffers.rs`, `src/model_batches.rs`, `src/bind_groups.rs`,
  `src/frame.rs`: per-frame decisions of the renderer.
- `app/`: the shipyard systems and resources, file loading and transform
  arithmetic around the library.
