//! An in-memory, archetype-based entity/component store.
//!
//! Entities are opaque identities carrying a fixed set of type-erased
//! component values. Entities with the same ordered list of component types
//! share one archetype table: a common row index plus one column store per
//! component type. Queries scan the tables whose columns cover a shape of
//! required and optional component types, under per-type access guards.

pub mod bundle;
pub mod entity;
pub mod query;
pub mod store;
pub mod kv;
pub mod tables;
pub mod world;
