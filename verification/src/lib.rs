//! A content-catalogue synchronization engine.
//!
//! A directory of text documents (frontmatter plus markdown body) is the
//! source of truth for a catalogue of essays; a relational store holds the
//! queryable copy, with tags and categories normalized into dictionary
//! tables. The heart of the crate is the reconciler: it compares the source
//! documents' modification instants against the store's recorded save times
//! and applies the minimal set of inserts, updates and deletes, keeping the
//! dictionaries free of duplicate names and replacing an essay's
//! associations wholly on every update.

pub mod content;
pub mod data_struct;
pub mod document;
pub mod dictionary;
pub mod error;
pub mod reconcile;
pub mod render;
pub mod store;
