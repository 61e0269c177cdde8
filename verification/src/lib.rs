//! fling: a Unix socket command relay. A server exposes a default-deny set of
//! commands, gated by per-argument glob rules; a client runs them with
//! stdin/stdout/stderr and the exit code forwarded verbatim.
//!
//! This library holds the relay's logic: the glob rules, the configuration and
//! its authorization, the sandboxed command line, the wire format, and the
//! decisions of client and server. Sockets, processes and files are handled by
//! the program around it.
pub mod cli;
pub mod client;
pub mod config;
pub mod glob;
pub mod path;
pub mod protocol;
pub mod sandbox;
pub mod server;
pub mod text;
