//! Helpers for populating the resource stores.
pub mod gltf_loader;
