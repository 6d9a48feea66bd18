//! Replication layer for a grow-only counter shared by a fixed set of nodes.
//!
//! `node` names the peers and their addresses, `counter` holds the replicated
//! state and its merge, `message` frames and parses what goes on the wire,
//! `decimal` writes and reads the numbers in it, and `command` reads the lines
//! typed at a node's prompt.
pub mod node;
pub mod counter;
pub mod decimal;
pub mod message;
pub mod command;
