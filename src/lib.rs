//! Control-plane library for reverse-proxy host entries kept in a Caddyfile.
//!
//! The library parses the host blocks of a Caddyfile, renders a list of hosts
//! back into the machine-owned region of the file, and decides the outcome of
//! the registry operations (list, add, remove) and of a proxy reload.
pub mod text;
pub mod host;
pub mod codec;
pub mod registry;
pub mod laws;
