//! A file-backed session store: one file per session record inside a
//! configured folder, plus an age-gated sweep that removes expired records.
//!
//! The store's state is modelled as a directory of named entries
//! ([`dir_model::DirectoryModel`]): each entry carries a file name, the
//! encoded record bytes, and a last-modified timestamp. The five operations
//! (`create`, `save`, `load`, `delete`, `delete_expired`) are verified
//! transitions over that model; the identifier rendering and the record
//! codec are supplied by outside crates behind trusted wrappers.

pub mod codec;
pub mod dir_model;
pub mod ids;
pub mod laws;
pub mod store;
pub mod sweep;

pub use dir_model::{DirEntryModel, DirectoryModel};
pub use store::{FileSessionStorage, SessionRecord, StoreDuration, StoreError};
