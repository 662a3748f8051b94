//! The bookkeeping of the brackens game engine, with contracts proved by
//! Verus: reference-counted asset storages, entity hierarchies, the choice
//! of transforms to recompute, and the per-frame decisions of the renderer.

pub mod asset_storage;
pub mod bind_groups;
pub mod components;
pub mod draw_buffers;
pub mod frame;
pub mod handle;
pub mod hierarchy;
pub mod model_batches;
pub mod transform_updates;
