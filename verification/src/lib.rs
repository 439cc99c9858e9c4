//! Market-snapshot aggregation engine.
//!
//! The library builds cross-sectional market snapshots: it resolves a symbol
//! universe, filters it through a negative-result registry, folds per-symbol
//! fetch outcomes into a normalized panel anchored at a distinguished symbol,
//! caches the panel with a timeframe-derived TTL, and produces ranked outlier
//! summaries.  All computation here is verified; network and file system work
//! lives with the caller, which hands plain values in and takes plain values
//! back.

pub mod auth;
pub mod blog;
pub mod cache;
pub mod conf;
pub mod logret;
pub mod lsr;
pub mod numfmt;
pub mod rank;
pub mod registry;
pub mod report;
pub mod series;
pub mod snapshot;
pub mod types;
