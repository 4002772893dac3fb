//! An engine for exploring forensic event records: it takes events in,
//! narrows and orders them, links those that share an identity, a place or
//! a moment into a correlation graph, and keeps the place of a reader who
//! walks that graph.

pub mod cluster;
pub mod correlate;
pub mod event;
pub mod graph;
pub mod index;
pub mod ingest;
pub mod navigation;
pub mod query;
pub mod session;
pub mod sort;
pub mod text;
pub mod timestamp;

pub use crate::correlate::{correlate_events, CorrelationGraph};
pub use crate::event::ChainsawEvent;
pub use crate::session::ChainsawApp;
pub use crate::timestamp::parse_timestamp;
