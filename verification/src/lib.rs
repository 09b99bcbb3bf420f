//! Core logic of a PeerCast YP browser: reading YP channel directories,
//! building the URLs handed to players, filters, and settings rules.
pub mod text;
pub mod chandir;
pub mod config;
pub mod peercast;
pub mod player;
pub mod fetch;
pub mod pattern;
pub mod filter;
pub mod win;
pub mod worker;
pub mod listing;
