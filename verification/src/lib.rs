//! Aggregation of tagged, quarterly count records.
//!
//! The library parses text lines of the form `tag1|tag2|...,year,quarter,count`,
//! optionally maps each tag through a key table loaded from CSV bytes, and
//! counts how often each (name, year, quarter) combination was observed.

pub mod aggregate;
pub mod assoc;
pub mod keytable;
pub mod table;
pub mod text;
