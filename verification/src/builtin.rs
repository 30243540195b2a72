//! The standard library: what the builtins compute.
pub mod base;
pub mod dates;
pub mod files;
pub mod formats;
pub mod randoms;
pub mod sockets;
pub mod strings;
pub mod tables;
