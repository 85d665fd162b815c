//! A node-local file store with a peer-membership registry and a framed
//! command protocol.
//!
//! The storage index maps logical file names to physical locations held by a
//! storage medium; the membership registry tracks peer nodes and their
//! liveness status; the command protocol carries client operations across a
//! connection as length-delimited byte frames; the dispatcher routes decoded
//! commands to the store and produces exactly one response per command.

pub mod errors;
pub mod text;
pub mod storage;
pub mod membership;
pub mod topology;
pub mod protocol;
pub mod dispatcher;
pub mod connection;
pub mod config;
pub mod logging;
pub mod dfs;
pub mod server;
pub mod client;
