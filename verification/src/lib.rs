//! Resource-ownership core of a real-time scene engine.
//!
//! Scene entities live in generational arenas and refer to one another only
//! through typed handles, so the scene graph can hold back and cross
//! references without shared ownership and without dangling ones.
//!
//! - [`resource`]: handles and the arena that resolves them. A handle that has
//!   stopped resolving never resolves again.
//! - [`registry`]: which stores exist and who holds them: many readers or one
//!   writer per store, stores independent of each other.
//! - [`scene`]: transform nodes, the hierarchy they form, scenes and cameras.
//!   World matrices are refreshed parents first, by a walk with an explicit
//!   stack that reports a hierarchy that is not a tree instead of walking it.
//! - [`math`]: fixed-size vectors over any scalar type. The arithmetic on
//!   matrices and quaternions itself is supplied by the user of the scene
//!   code, see [`scene::node::TransformMath`].
//! - [`texture`] and [`utils`]: sampler state, and the decisions of an asset
//!   import.
pub mod math;
pub mod registry;
pub mod resource;
pub mod scene;
pub mod texture;
pub mod utils;
