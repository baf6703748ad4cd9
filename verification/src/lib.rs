//! Conversion and merging of gettext translation catalogs.
//!
//! The crate models a catalog as a header plus a set of entries keyed by
//! (context, source text), and provides a binary MO codec, a textual PO
//! codec, a CSV ingestion adapter, and a priority merge over several PO
//! catalogs.

pub mod config;
pub mod convert;
pub mod csv;
pub mod entry;
pub mod errors;
pub mod escape;
pub mod merge;
pub mod mo;
pub mod models;
pub mod po;
pub mod text;
