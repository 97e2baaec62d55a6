//! A verified library for editing Android application packages in memory.
//!
//! The crate parses a ZIP container into an indexed view, accumulates an edit
//! plan (append / replace / remove entries), and emits a new, alignment-
//! correct archive.  Beside that it parses the Android binary-XML manifest
//! into an element tree, lets callers add activities and content providers,
//! and regenerates a valid binary-XML byte stream.

pub mod utils;
pub mod zip;
pub mod compress;
pub mod editor;
pub mod wrap;
pub mod laws;
pub mod axml;
pub mod manifest_editor;
