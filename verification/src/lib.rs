//! Backlog issue history mapped into an OCEL 2.0 staging log.

pub mod client;
pub mod counts;
pub mod event_ids;
pub mod validation;
pub mod incremental;
pub mod laws;
pub mod mapper;
pub mod mapping_laws;
pub mod models;
pub mod staging;
pub mod streaming;
pub mod sync;
pub mod text;
