//! The parts of a terminal coding harness that decide things: what a model's stream says, what a
//! tool shows, where panes sit, what a session file holds.

pub mod agent;
pub mod client;
pub mod config;
pub mod event;
pub mod json;
pub mod logger;
pub mod message;
pub mod pane;
pub mod paths;
pub mod prompt;
pub mod pty;
pub mod ratio;
pub mod session;
pub mod stream;
pub mod text;
pub mod toml;
pub mod tools;
pub mod usage;
pub mod watch;
