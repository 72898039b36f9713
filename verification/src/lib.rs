//! A terminal monitor for a llama.cpp router server: the data it fetches,
//! the per-slot throughput tracking, and the decisions of its event loop.
//!
//! - `api`: the router's model list and slot reports;
//! - `fetch`: how the answers of one refresh are put together;
//! - `history`: each slot's counter, prefill detection and samples;
//! - `app`: the monitor's state and the queries of the display;
//! - `ui`: the display's text and classification rules;
//! - `cli`: the command line, key presses, refresh timing, the API key;
//! - `text`: character-level text helpers.
pub mod api;
pub mod app;
pub mod cli;
pub mod fetch;
pub mod history;
pub mod text;
pub mod ui;
