//! The earlier report menu.
pub mod app;
