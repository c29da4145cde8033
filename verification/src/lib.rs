//! A terminal multiplexer's core: sessions of tabs of panes, the key and
//! mouse handling, the drawing, and the server and client state machines.

pub mod actions;
pub mod ansi;
pub mod args;
pub mod attach;
pub mod dividers;
pub mod effect;
pub mod grid;
pub mod laws;
pub mod layout;
pub mod listing;
pub mod model;
pub mod clients;
pub mod clipboard;
pub mod config;
pub mod keys;
pub mod input;
pub mod mouse;
pub mod protocol;
pub mod render;
pub mod screens;
pub mod search;
pub mod select;
pub mod server;
pub mod sessions;
pub mod starts;
pub mod text;
pub mod world;
