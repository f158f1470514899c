//! Search, clipboard-history and calculator logic of a keyboard-driven launcher.
pub mod text;
pub mod fuzzy;
pub mod clipboard_history;
pub mod calculator;
pub mod files;
pub mod config;
pub mod results;
pub mod theme;
pub mod search;
pub mod apps;
