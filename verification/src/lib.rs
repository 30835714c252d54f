//! An in-memory, deduplicated tabular store for CSV data.
//!
//! A raw byte stream is parsed into ragged rows of text fields (with a
//! best-effort fallback transliteration for bytes that are not valid UTF-8),
//! normalized into a rectangular table, and stored with all repeated cell
//! texts and column descriptors interned to stable integer keys.
//!
//! - [`decoder`] turns one field's bytes into text, never failing.
//! - [`csv_loader`] frames bytes into records and decodes every field.
//! - [`sutoa`] is the content-addressed arena both interners are built on.
//! - [`database`] owns the arenas, builds rectangular tables from ragged
//!   grids, and tracks the current table.
//! - [`area`] and [`appstate`] are the small coordinate utilities around the
//!   store.

pub mod appstate;
pub mod area;
pub mod csv_loader;
pub mod database;
pub mod decoder;
pub mod sutoa;
