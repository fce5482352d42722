//! A browser for the hosts of an SSH client configuration.
//!
//! The library parses the configuration text into a list of group headers and
//! hosts, keeps the filter, expansion and selection state of that list, and says
//! which rows are visible. Every function is verified against a mathematical model
//! of its data: see `model` for the list, `parser` for the configuration text, and
//! `laws` for what holds of them.

pub mod app;
pub mod event_handler;
pub mod fuzzy;
pub mod item;
pub mod laws;
pub mod model;
pub mod parser;
pub mod render;
pub mod server;
pub mod ssh_login;
pub mod text;
pub mod width;
