//! Structural differences between two JSON documents.
pub mod diff;
pub mod engine;
pub mod laws;
pub mod order;
pub mod path;
pub mod render;
pub mod value;
