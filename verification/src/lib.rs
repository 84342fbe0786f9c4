//! Resid: knowledge-graph IR, compile-time reduction, and package tooling.

pub mod graph;
pub mod text;
pub mod types;
pub mod archive;
pub mod crypto;
pub mod cose;
pub mod provenance;
pub mod lock;
pub mod registry;
pub mod manifest;
pub mod retro;
pub mod reduce;
pub mod convert;
pub mod capture;
