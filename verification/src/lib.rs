//! Game logic of a multiplayer maze shooter: maze generation, the name and
//! packet-size rules of the wire protocol, sequence/ack bookkeeping, the
//! authoritative server game state and the server's client registry, and
//! on the client side the lobby form, the session's decisions, prediction
//! and interpolation buffers, and the texts and choices the display makes.
use vstd::prelude::*;

pub mod game;
pub mod interpolation;
pub mod lobby;
pub mod maze;
pub mod network;
pub mod prediction;
pub mod protocol;
pub mod random;
pub mod render;
pub mod server;
pub mod session;
pub mod text;

verus! {

} // verus!
