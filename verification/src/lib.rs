//! Classification and unpacking of firmware update images.
//!
//! An image is a byte buffer.  It may be a tagged container that holds named
//! entries, a ZIP archive, or a leaf: JSON, plain text, gzip, firmware of a
//! known kind, or something unknown.  Containers and archives may hold
//! further containers and archives.
//!
//! - [`file_types`] decides which format a buffer has, from an embedded
//!   container marker, its leading bytes and an optional file name.
//! - [`parser`] scans a container for its entries; [`tags`] says what a tag
//!   is, [`file_entry`] what an entry is, and [`framing`] what the parser
//!   makes of a container that was built by the rules.
//! - [`zip_utils`] finds where an archive ends inside a larger buffer, and
//!   [`archive`] reads its members.
//! - [`processor`] puts these together: it classifies a buffer and unpacks it
//!   level by level.  Its result is a list of [`steps`], which the caller
//!   renders and carries out; [`display`] lays out the previews and
//!   [`summary`] the summary of the metadata that the steps hold.
//!
//! Every function states what it returns over plain mathematical values, and
//! is proved to meet that statement.  What is taken on trust is marked as
//! such: the decoders of the `zip` and `serde_json` crates, and a few
//! conversions of the standard library.

pub mod archive;
pub mod display;
pub mod file_entry;
pub mod file_types;
pub mod framing;
pub mod json;
pub mod parser;
pub mod processor;
pub mod steps;
pub mod summary;
pub mod tags;
pub mod text;
pub mod zip_utils;
