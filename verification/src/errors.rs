//! The error taxonomy of the catalog engine.
//!
//! I/O failures belong to the unverified caller; everything the engine
//! itself can detect is one of these.

use vstd::prelude::*;

verus! {

/// Why a conversion or merge failed.
///
/// `Format` covers malformed input (bad magic, truncated or out-of-bounds
/// binary data, invalid UTF-8, a PO syntax violation), with the offending
/// line where one is known (0 when none applies). `EmptyInput` means the
/// input was syntactically fine but held no usable entry. `Validation`
/// means the self-check of freshly written output found a malformed entry
/// block, which indicates an internal encoding bug.
#[derive(Debug, Clone, Copy, PartialEq, Eq, Structural)]
pub enum CatalogError {
    Format { line: usize },
    EmptyInput,
    Validation { line: usize },
}

impl CatalogError {
    /// A short human-readable description of the error class.
    pub fn describe(&self) -> (r: &'static str)
        ensures
            self is Format ==> r@ == "malformed input"@,
            self is EmptyInput ==> r@ == "no usable entries in input"@,
            self is Validation ==> r@ == "re-validation of written output failed"@,
    {
        match self {
            CatalogError::Format { .. } => "malformed input",
            CatalogError::EmptyInput => "no usable entries in input",
            CatalogError::Validation { .. } => "re-validation of written output failed",
        }
    }
}

} // verus!
