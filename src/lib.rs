//! A key-value store made fault-tolerant by routing every mutation and read
//! through a replicated log.
//!
//! - `codec`: the stable wire format of commands and results.
//! - `store`: the key-value capability set and the order of listings.
//! - `memory`: an in-memory store, sorted by key.
//! - `state`: the state machine that replays committed commands.
//! - `raft`: the consensus collaborator and the store that callers use.
pub mod codec;
pub mod error;
pub mod memory;
pub mod raft;
pub mod state;
pub mod store;
