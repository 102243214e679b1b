//! Signaling and negotiation core of a peer-to-peer meeting system: the room
//! registry of the relay server, the client session and per-peer negotiation
//! state machines, the resource protocol and the relay payload encryption.
pub mod assets;
pub mod cli;
pub mod config;
pub mod crypto;
pub mod idgen;
pub mod peer;
pub mod protocol;
pub mod registry;
pub mod room_laws;
pub mod session;
