//! A hierarchical catalog of downloadable items with cursor navigation,
//! selection toggling and size aggregation.

pub mod app;
pub mod counter;
pub mod download;
pub mod laws;
pub mod library;
pub mod merge;
pub mod navigate;
pub mod sort;
pub mod text;
