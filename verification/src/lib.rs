//! The protocol core of a peer-to-peer chat node.
//!
//! A node registers with a local daemon, learns from it which users and devices
//! it may see, and exchanges frames with the chat apps on them. Rooms are hosted
//! by one member's User Agent, which orders the messages. Every function that
//! changes a node states exactly what becomes of it; `laws` states what holds of
//! all of them together.

pub mod api;
pub mod bytes;
pub mod clock;
pub mod codec;
pub mod frame;
pub mod laws;
pub mod messages;
pub mod msg;
pub mod packet;
pub mod rooms;
pub mod round_trip;
pub mod snapshot;
pub mod state;
pub mod text;
pub mod uuid;
pub mod views;
