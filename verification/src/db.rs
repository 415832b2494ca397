//! The catalogue: its records, and the rules over them.

pub mod collections;
pub mod config;
pub mod dats;
pub mod files;
pub mod quarantine;
pub mod schema;
