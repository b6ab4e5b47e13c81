//! A small scene-graph engine: a store of instances (a workspace and
//! parts) linked by child handles, with a verified pre-order traversal,
//! and the colour fields of the property panel.

pub mod graph;
pub mod game_engine;
pub mod properties;
