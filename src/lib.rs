//! A fuzzy finder core over a fixed list of paths: query matching and ranking,
//! the filter/sort pipeline, the per-path tag file format, the background
//! enrichment bookkeeping and the interactive session's state transitions.

pub mod config;
pub mod enrich;
pub mod matcher;
pub mod metadata;
pub mod order;
pub mod pipeline;
pub mod query;
pub mod roundtrip;
pub mod selection;
pub mod session;
pub mod tagstore;
pub mod text;
pub mod vcs;
