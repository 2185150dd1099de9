//! Entity-component storage: generational entity handles, sparse-set
//! component storage, tag bitmasks, deferred mutations and filtered queries,
//! together with per-kind event queues and the platform event types.
//!
//! Component types and event kinds are named by `u32` keys that the caller
//! assigns, one per type; a world holds components of one value type `C`,
//! usually an enum with one variant per component type.

pub mod directory;
pub mod entity;
pub mod event;
pub mod events;
pub mod laws;
pub mod query;
pub mod storage;
pub mod world;

pub use entity::{Entity, EntityBuilder};
pub use event::{AppExit, Events};
pub use query::{Query, QueryFilter, QueryMut};
pub use storage::{SparseSet, Storage};
pub use world::{DeferredOp, InspectRow, World};
