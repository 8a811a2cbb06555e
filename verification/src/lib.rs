//! One-way directory synchronisation over a framed binary protocol.
//!
//! The crate holds the verified core: the byte-level wire format, the
//! directory snapshot model with its hash-addressed index and diff, the
//! server's snapshot and content cache, the per-connection session state
//! machine, and the client's decisions during a sync run.

pub mod client;
pub mod compress;
pub mod fileinfo;
pub mod format;
pub mod hashing;
pub mod index;
pub mod keytable;
pub mod paths;
pub mod protocol;
pub mod server;
pub mod session;
pub mod text;
pub mod wire;
pub mod wire_tree;
