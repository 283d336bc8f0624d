//! Extracts power-outage records from a provider's outage-status HTML page
//! and renders them as a JSON array.
//!
//! The pipeline: lenient HTML parsing and CSS-class selection (through the
//! `scraper` crate), a strict fixed-vocabulary mapping from labelled rows to
//! record fields, date-time parsing into Newfoundland civil time (offsets
//! through the `chrono-tz` database), and JSON rendering.

pub mod text;
pub mod dates;
pub mod extract;
pub mod json;
