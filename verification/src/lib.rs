//! Identification of likely-unused source-code symbols.
//!
//! The crate groups raw tag entries into logical tokens (`token`), builds
//! search and filter configuration from user policy (`config`), selects a
//! project rule profile with silent fallback (`profile`), filters and sorts
//! classified results (`analysis`), and renders them as colorized text pieces
//! (`render`) or as a structured, round-trippable value (`structured`).
//! Reading tag entries, searching for occurrences, scoring usage likelihood,
//! and parsing the profile store are the work of external collaborators; the
//! library states what it does with every value they may hand back.

pub mod analysis;
pub mod config;
pub mod profile;
pub mod render;
pub mod strings;
pub mod structured;
pub mod tags;
pub mod token;
