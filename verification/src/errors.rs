//! The error taxonomy shared by every command of the archive tool.
use vstd::prelude::*;

verus! {

/// Every failure a top-level command can surface. `DuplicateIdentifier` and
/// `ParseError` arise inside the verified core; the other variants name the
/// failures of the surrounding I/O (directory access, the OCR engine, and
/// the external rasterize/copy/search tools).
#[derive(Clone, Copy, Debug, PartialEq, Eq, Structural)]
pub enum KartkaError {
    IoError,
    OcrError,
    ExternalToolError,
    DuplicateIdentifier,
    ParseError,
}

impl KartkaError {
    /// A short human-readable description, in place of `Display`.
    pub fn message(&self) -> (r: &'static str)
        ensures
            r@ == self.spec_message(),
    {
        match self {
            KartkaError::IoError => "could not access a file or directory",
            KartkaError::OcrError => "text extraction failed",
            KartkaError::ExternalToolError => "an external tool failed",
            KartkaError::DuplicateIdentifier => "a record with this identifier already exists",
            KartkaError::ParseError => "malformed search-tool output",
        }
    }

    pub open spec fn spec_message(self) -> Seq<char> {
        match self {
            KartkaError::IoError => "could not access a file or directory"@,
            KartkaError::OcrError => "text extraction failed"@,
            KartkaError::ExternalToolError => "an external tool failed"@,
            KartkaError::DuplicateIdentifier => "a record with this identifier already exists"@,
            KartkaError::ParseError => "malformed search-tool output"@,
        }
    }
}

} // verus!
