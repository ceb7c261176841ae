//! The decisions of a small Hyprland daemon that remembers a keyboard layout
//! per window and per layer surface, and restores it when focus moves.
//!
//! Nothing in this crate performs I/O: it says what a line from the event
//! socket means, what to ask of Hyprland, what a reply means, and which
//! layouts to switch.

mod utf8_facts;
pub mod text;
pub mod string_map;
pub mod rules;
pub mod state;
pub mod layers;
pub mod numbers;
pub mod event;
pub mod paths;
pub mod config;
pub mod model;
pub mod snapshot;
pub mod daemon;
pub mod single_instance;
pub mod ipc;
pub mod laws;
pub mod effects;
