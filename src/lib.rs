//! Groups photos by the capture instant recorded in their EXIF metadata and
//! plans deterministic, date-foldered names for them.
pub mod assign;
pub mod collate;
pub mod datetime;
pub mod plan;
pub mod text;
