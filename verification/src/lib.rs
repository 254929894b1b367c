//! Watches coding-agent sessions across development boxes.
//!
//! Agent hooks leave a record of each session on the machine that it runs on. A laptop polls
//! the machines, shows their sessions in a terminal or on a web page, and tells its user what
//! is new. This library holds the rules; reading, writing and running commands is up to its
//! caller.

// Texts, numbers and collections.
pub mod text;
pub mod split;
pub mod number;
pub mod glob;
pub mod sort;
pub mod table;
pub mod paths;

// Values from outside.
pub mod ids;
pub mod json;
pub mod time;

// Records and settings.
pub mod compact;
pub mod config;
pub mod labels;
pub mod model;
pub mod prs;

// What happens on a devbox.
pub mod hooks;
pub mod links;
pub mod storage;

// What happens on the laptop.
pub mod dashboard;
pub mod discovery;
pub mod http;
pub mod notifications;
pub mod server;
pub mod wezterm;
