//! A verified catalog synchronization and reconciliation engine for live-TV
//! channel listings: playlist refresh that preserves per-channel user state,
//! EPG (electronic program guide) matching against local channels, and a
//! filtered, paginated channel query engine.

#![verifier::loop_isolation(false)]

pub mod epg;
pub mod model;
pub mod query;
pub mod refresh;
pub mod timefmt;
pub mod store;
pub mod sanitize;
pub mod text;

