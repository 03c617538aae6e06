//! oob_tui: the logic behind a terminal browser for interactsh out-of-band
//! interaction logs: parsing JSONL records into a time-ordered timeline, the
//! free-text and protocol filters, smart grouping of identical requests, the
//! navigable selection, the plain-text export, the configuration file, and the
//! small formatting helpers that the screens use.

pub mod text;
pub mod time;
pub mod sorting;
pub mod model;
pub mod app;
pub mod export;
pub mod config;
pub mod ui;
pub mod events;
pub mod fetch;
pub mod cli;
