//! Scene entities: nodes, their hierarchy, and what is attached to them.
pub mod camera;
pub mod hierarchy;
pub mod node;
pub mod scene;
mod walk;
