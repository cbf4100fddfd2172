//! Verified core of a FLARM-device dataset aggregator: a time-bounded
//! on-disk cache policy, three source-record shapes, a three-way merge
//! with field-level precedence and identity-matching rules, and text
//! sanitization for two downstream character sets.

pub mod cache;
pub mod flarmnet;
pub mod merge;
pub mod ogn;
pub mod record;
pub mod sanitize;
pub mod serde;
pub mod text;
pub mod weglide;
