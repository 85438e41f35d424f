//! A Redis-compatible protocol layer for the FeOx key-value store: command
//! parsing, pattern subscriptions, key-version tracking for WATCH, the
//! per-connection transaction state machine and the command executor.

pub mod pubsub;
pub mod watch_registry;
pub mod protocol;
pub mod text;
pub mod network;
pub mod store;
pub mod server;
