//! Reactive owner-indexed state store with publish/subscribe fan-out,
//! the pod adapter that feeds it, and the SBOM enrichment rules that
//! build on it.

pub mod api;
pub mod bombastic;
pub mod data;
pub mod hub;
pub mod item_map;
pub mod item_set;
pub mod laws;
pub mod model;
pub mod pods;
pub mod pubsub;
pub mod purl;
mod seqs;
pub mod server;
pub mod state;
pub mod store;
