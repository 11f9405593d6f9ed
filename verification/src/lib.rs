//! Core engine for a multiplayer censorship-puzzle chat: per-room state,
//! per-country message censorship, player note tracking, progress and victory
//! computation, and the batch action-processing step that a room's single
//! owning task runs. Transport, authentication and persistence live outside
//! this crate; the functions here are pure state transitions with verified
//! contracts.

pub mod data;
pub mod filter;
pub mod game;
pub mod laws;
pub mod room;
pub mod strutil;
pub mod words;
