//! Texture sampling state.
pub mod sampler;
