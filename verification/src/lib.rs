//! Identify storage devices against a vendor-curated drive database.
//!
//! The database is a semi-structured text file (an array of records embedded
//! in C source). This crate parses that format, parses the compact attribute
//! descriptor strings found both in database presets and in user-supplied
//! overrides, matches a device's model and firmware strings against the
//! database entries, and renders the final decoding recipe for each SMART
//! attribute number.

pub mod text;
pub mod parser;
pub mod vendor_attribute;
pub mod presets;
pub mod drivedb;
pub mod loader;
pub mod report;
