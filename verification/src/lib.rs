//! A model-free project map for a codebase.
pub mod analyze;
pub mod collections;
pub mod extract;
pub mod laws;
pub mod manifest;
pub mod markdown;
pub mod model;
pub mod order;
pub mod platform;
pub mod project;
pub mod ranking;
pub mod registry;
pub mod resolve;
pub mod stability;
pub mod structure;
pub mod syntax;
pub mod text;
pub mod walk;
