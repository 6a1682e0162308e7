//! Scans text for inline TODO markers, classifies each one by its
//! annotation (numeric priority, named category, or nothing further),
//! and renders a grouped, deterministically ordered report.
//!
//! The scanners, the gitignore exclusion importer and the renderer are
//! all verified: each executable function's contract states exactly
//! what it yields, over character-sequence models of its inputs, and
//! the laws module proves the properties that relate them.

use vstd::prelude::*;

pub mod entries;
pub mod laws;
pub mod render;
pub mod scan;
pub mod text;

verus! {

} // verus!
