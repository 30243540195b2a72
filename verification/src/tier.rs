//! The border between the interpreter and compiled code: what crosses it, what
//! is undone when compiled code gives up, when code is thrown away, and when a
//! loop is worth compiling.
pub mod args;
pub mod counts;
pub mod deps;
pub mod dirty;
pub mod epoch;
pub mod find;
pub mod hooks;
pub mod order;
