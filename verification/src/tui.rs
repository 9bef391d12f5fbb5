//! The interactive browser of a scanned tree.
pub mod app;
