//! Server-side orchestration for a turn-based arena game: the rules engine,
//! a per-connection flood guard, a connection registry, the matchmaking lobby
//! and the per-match coordinator, each written as a state machine whose
//! handlers return the effects the transport layer must carry out.

pub mod game;
pub mod rules;
pub mod flood_guard;
pub mod registry;
pub mod lobby;
pub mod session;
pub mod manager;
pub mod laws;
mod random;
