//! A single node of a simulated cluster: the message envelope, the identity
//! handshake, and the gossip protocol that spreads broadcast values to every
//! reachable node.
//!
//! Every function here is a step from values to values. Reading and writing
//! lines, timers and threads belong to the program around this crate.
pub mod broadcast;
pub mod burst;
pub mod echo;
pub mod laws;
pub mod message;
pub mod network;
pub mod node;
pub mod pending;
pub mod values;

pub use crate::message::{
    handshake, Action, Body, HandshakeError, InitMsg, InitPayload, Message, MessageEvent,
    Responder, ResponderError,
};
