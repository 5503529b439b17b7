//! Bookmarks for directories: the rules by which saved paths are stored,
//! merged with the children of the working directory, matched against a
//! query and shown, each with a proved contract.

pub mod error;
pub mod guess;
pub mod index_renderer;
pub mod init;
pub mod keep;
pub mod listing;
pub mod matcher;
pub mod merge;
pub mod path;
pub mod pickers;
pub mod store;
pub mod text;
