//! World instantiation core: spawn requests with a tick-based delay queue, and
//! the decisions behind deriving navigation meshes from a scene hierarchy.
pub mod event;
pub mod navmesh;
pub mod scheduler;
pub mod tree;
