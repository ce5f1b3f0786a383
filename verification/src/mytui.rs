//! The report menu.
pub mod app;
