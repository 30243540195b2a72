//! What an editor asks about a file.
pub mod calls;
pub mod colours;
pub mod complete;
pub mod cursor;
pub mod docs;
pub mod facts;
pub mod hover;
pub mod index;
pub mod names;
pub mod offer;
pub mod say;
pub mod tokens;
pub mod types;
pub mod words;
