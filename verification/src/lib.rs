//! The blue2th PC backend's decision logic: authentication and pairing, the
//! backend's name, settings and identity, the auto-reconnect ladder, the HTTP
//! route table and the addresses the backend binds and advertises, the
//! playback state machine, and the audio routing plans read from and applied
//! to the PipeWire graph.

pub mod reconnect;
pub mod text;
pub mod entropy;
pub mod auth;
pub mod state_store;
pub mod config;
pub mod identity;
pub mod audio;
pub mod split;
pub mod graph;
pub mod graph_pactl;
pub mod graph_pw;
pub mod server;
