//! A bookmark store: bookmarks, folders and tags, and the pairs of a bookmark
//! and a tag, held by a [`Store`] and read and changed through it.
//!
//! A record that comes out of a store is a detached copy, a snapshot: changing
//! it changes nothing in the store until it is saved, and saving overwrites
//! every field of the stored record but its id. Each kind of record gets its
//! ids from 1 upwards, in the order of creation, and no id is given twice.
//! Removing a bookmark or a tag removes its pairs with it.
//!
//! What a store is, and what each operation makes of it, is stated over
//! [`store::StoreView`]; `laws` holds what follows for the operations taken
//! together.

pub mod bookmark;
pub mod error;
pub mod folder;
pub mod laws;
pub mod seqs;
pub mod store;
pub mod tag;
pub mod text;
pub mod tree;

pub use bookmark::BookMark;
pub use error::StoreError;
pub use folder::{root_folders, Folder};
pub use store::Store;
pub use tag::Tag;
