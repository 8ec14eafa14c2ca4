//! An authoritative real-time session server core.
//!
//! Clients connect, pass a handshake and ready-check, run a countdown, then
//! enter a running phase exchanging application messages, with an integrated
//! chat broadcast.  This crate holds the verified core: the binary wire
//! protocol, the per-client queue bridge and identity registry, the chat
//! ledger, the three-phase session state machine, and the game driver that
//! owns the active phase.  Socket handling and threading live outside the
//! library and talk to it through plain values.

pub mod chat;
pub mod game;
pub mod just_created;
pub mod message;
pub mod reaction;
pub mod ready_to_start;
pub mod running;
pub mod state;
pub mod users;
