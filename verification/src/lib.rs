//! Daily road-congestion pipeline over an H3 hexagonal grid.
//!
//! Origin/destination trip counts are folded into per-cell volumes, a
//! BPR-style congestion model derives an "Orange" delay per cell, cells with
//! low data confidence can be enriched with a real-time traffic provider's
//! signal, and the result is rendered as a styled polygon GeoJSON together
//! with per-cell history rows for persistence.
//!
//! All quantities are carried as scaled integers: confidences, delays,
//! factors and shares in thousandths (milli), volume sums in millionths
//! (micro). The scales are chosen so that the volume aggregation is exact.

pub mod aggregate;
pub mod cells;
pub mod config;
pub mod csvio;
pub mod dates;
pub mod enrich;
pub mod fixed;
pub mod history;
pub mod model;
pub mod numfmt;
pub mod orange;
pub mod pipeline;
pub mod render;
