//! A real-time session broker: rooms of connected sessions, broadcast and
//! whisper routing, join/leave notification, and heartbeat-based eviction.
pub mod assoc;
pub mod numtext;
pub mod message;
pub mod command;
pub mod game_room;
pub mod banker;
pub mod controllers;
