//! Verified core of an interactive disk usage analyzer: the directory size
//! computation, the ordering and filtering of listings, and the key-driven
//! state machine of the browser.

pub mod app;
pub mod config;
pub mod paths;
pub mod scanner;
pub mod sorting;
pub mod text;
pub mod ui;
