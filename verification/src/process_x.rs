//! The per-node processors: one module for each top-level rule kind.
pub mod functions;
pub mod imports;
pub mod keyframes;
pub mod media_queries;
pub mod rule_normal;
pub mod variables;
