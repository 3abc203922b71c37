//! Grouping and ordering of document records for display.
//!
//! Documents are partitioned by a chosen attribute into named groups, each
//! group is put in stable order by a second attribute, and optionally
//! reversed.
pub mod document;
pub mod field;
pub mod grouping;
pub mod keys;
pub mod sort;
