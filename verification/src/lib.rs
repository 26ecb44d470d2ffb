//! Replication of moving 2-D rectangles between one authoritative
//! simulation and any number of remote observer mirrors.
//!
//! The authority owns the canonical set of entities and their positions
//! (`registry`); each observer keeps a derived copy (`mirror`). The two
//! sides exchange the messages of `protocol` over an ordered reliable
//! channel supplied by an outside transport.

pub mod input;
pub mod mirror;
pub mod placement;
pub mod protocol;
pub mod registry;
pub mod trace;
