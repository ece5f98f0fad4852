//! A small snippet store: named text snippets with creation timestamps,
//! persisted through one of two interchangeable storage backends (a flat
//! structured-text file, or an embedded relational database).
//!
//! The core is verified: the timestamp codec, the document codec of the file
//! backend, the row codec of the relational backend, the in-memory keyed
//! collection, the backend selector and the command dispatcher all carry
//! contracts. Only the thin calls into the database driver and the system
//! clock are trusted.

pub mod collection;
pub mod command;
pub mod config;
pub mod document;
pub mod error;
pub mod json;
pub mod sqlite;
pub mod strutil;
pub mod timestamp;
