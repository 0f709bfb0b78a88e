//! Kamilata: a peer-to-peer full-text search protocol core.
//!
//! Each node summarises its local document corpus as a fixed-size bit
//! filter, gossips filter stacks one hop at a time along the connection
//! graph, and answers queries by following decreasing-distance gradients
//! toward nodes likely to hold matching documents.
//!
//! This crate holds the verified core: the filter model and aggregation,
//! the routing database with its admission caps, the wire codec, and the
//! distributed search engine. Transport, dialling and substream plumbing
//! are the embedder's business; the core exchanges plain values with them.

pub mod behaviour;
pub mod codec;
pub mod config;
pub mod control;
pub mod counter;
pub mod db;
pub mod filter;
pub mod handler;
pub mod packets;
pub mod peer;
pub mod protocol_config;
pub mod memory_store;
pub mod queries;
pub mod search;
pub mod store;
pub mod wire;

pub use config::{KamilataConfig, MinTargetMax};
pub use control::{FixedSearchPriority, OngoingSearchState, SearchConfig, SearchPriority, SearchResults};
pub use counter::Counter;
pub use filter::Filter;
pub use peer::PeerId;
pub use protocol_config::KamilataProtocolConfig;
pub use queries::SearchQueries;
