//! A namespacing layer over an ordered byte-string key-value store.
//!
//! Many logical tables share the one flat keyspace of a store. Each table,
//! a namespace, owns the raw keys that begin with its tag, and sees no
//! others. The layer builds the tags, keeps the tags of different
//! namespaces from overlapping, maps the keys of a namespace to raw keys,
//! and bounds a cursor to the raw keys of one namespace.
//!
//! The layer does no input or output. It says what to ask of the store and
//! what to make of the store's answers.

pub mod cursor;
pub mod db;
pub mod error;
pub mod iter;
pub mod laws;
pub mod lex;
pub mod prefix;
pub mod registry;
pub mod store;
pub mod tag;

pub use crate::db::{PrefixGroup, DB};
pub use crate::error::ErrorKind;
pub use crate::iter::{Iter, Keys, Values};
pub use crate::prefix::Prefix;
pub use crate::registry::Registry;
pub use crate::store::Request;
