//! A set of key-value entries kept in sync between devices using nothing but a shared directory.
//!
//! For each path plus key, the newest timestamp wins. The library computes what is written and
//! who is told; reading and writing the files is left to the caller.

pub mod calls;
pub mod directory;
pub mod entry;
pub mod error;
pub mod file_utils;
pub mod groups;
pub mod hash;
pub mod info;
pub mod instance;
pub mod json;
pub mod keeping;
pub mod laws;
pub mod listener;
pub mod notifier;
pub mod order;
pub mod publish;
pub mod pull;
pub mod pull_laws;
pub mod pull_telling;
pub mod reading;
pub mod replay;
pub mod replay_laws;
pub mod sequences;
pub mod set_laws;
pub mod store;
pub mod telling;
pub mod text;
pub mod time;

pub use entry::{Entry, EntryWithPath, StoredEntry};
pub use error::DecSyncError;
pub use file_utils::{FileWrite, Files};
pub use instance::DecSyncInstance;
pub use json::Value;
pub use notifier::Notifier;
pub use pull::{Pull, Unread};
