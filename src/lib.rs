//! Clipboard history replication between a user's devices.
//!
//! `entry` and `merge` hold the entry log and its merge engine, `history`
//! what is stored and captured, `config` the peer configuration, `sync`,
//! `protocol` and `server` the sync protocol on both ends, `p2p` the
//! broadcast mode, and `daemon` the pid-file decisions of the background
//! processes. Everything here is pure: files, sockets, processes and the
//! clipboard are handled by the program around it.

pub mod config;
pub mod daemon;
pub mod entry;
pub mod handler;
pub mod history;
pub mod merge;
pub mod p2p;
pub mod protocol;
pub mod server;
pub mod sync;
pub mod text;
