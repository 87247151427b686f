//! rkv: a persistent networked key-value store.
//!
//! Modules, each depending only on those listed before it:
//! - [`text`]: character-level helpers (whitespace, trimming, splitting, decimal numbers)
//! - [`error`]: the common error type
//! - [`protocol`]: the line-based request/response protocol
//! - [`store`]: the in-memory ordered key-value store with expiry
//! - [`persist`]: append-log records and recovery from a log image
//! - [`engine`]: command execution as a state machine over the store and the log
//! - [`config`]: command-line argument handling
//! - [`session`]: per-line decisions of the server connection and the client console
pub mod text;
pub mod error;
pub mod protocol;
pub mod store;
pub mod persist;
pub mod engine;
pub mod config;
pub mod session;
