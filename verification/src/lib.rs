//! An in-memory graph store for short text notes ("thoughts") that can tag
//! each other and reference each other bidirectionally.
//!
//! The store owns the set of thoughts, the set of tags, and a derived
//! back-reference index that is kept consistent with every thought's forward
//! references by the single mutation entry point [`ThoughtGraph::command`].
//! A recursive boolean query language ([`Query`]) retrieves matching thought
//! identifiers through [`ThoughtGraph::query`].

pub mod entities;
pub mod graph;
pub mod ids;
pub mod mentions;
pub mod query;
pub mod strutil;
pub mod time;
pub mod ui;
pub mod visualization;

pub use entities::Reference;
pub use entities::Tag;
pub use entities::Thought;
pub use graph::Command;
pub use graph::ThoughtGraph;
pub use graph::ThoughtGraphError;
pub use ids::TagID;
pub use ids::ThoughtID;
pub use query::Query;
pub use time::Timestamp;
