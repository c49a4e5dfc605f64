//! The failures that an operation can report.

use vstd::prelude::*;

verus! {

/// What was wrong with a reference that an operation had to follow.
#[derive(Debug, Clone, Copy, PartialEq, Eq, Structural)]
pub enum ReferenceFault {
    /// No catalog: the trailer holds no reference to one, or there was no
    /// document to take it from.
    MissingCatalog,
    /// The catalog's id does not lead to a dictionary.
    InvalidCatalog,
    /// The catalog holds no reference to a page tree.
    MissingPageTree,
}

/// Which demand of an operation its input did not meet.
#[derive(Debug, Clone, Copy, PartialEq, Eq, Structural)]
pub enum ValidationFault {
    /// No page would be left.
    NoPagesLeft,
    /// The new page order names no page of the document.
    InvalidPageOrder,
    /// The password is empty.
    EmptyPassword,
    /// The result would need more object numbers, or a larger page count,
    /// than a document can hold.
    CapacityExceeded,
}

/// Why an operation failed. The text of `Io`, `Parse` and `Encryption` is
/// the store's own description of the failure.
#[derive(Debug, PartialEq, Eq)]
pub enum PdfError {
    Io(String),
    Parse(String),
    Reference(ReferenceFault),
    Validation(ValidationFault),
    Encryption(String),
}

impl PdfError {
    /// A sentence for the user.
    pub fn message(&self) -> (text: String)
        ensures
            match *self {
                PdfError::Io(detail) => text@ == detail@,
                PdfError::Parse(detail) => text@ == detail@,
                PdfError::Encryption(detail) => text@ == detail@,
                PdfError::Reference(ReferenceFault::MissingCatalog) => text@ == "No catalog found."@,
                PdfError::Reference(ReferenceFault::InvalidCatalog) => text@ == "Invalid catalog."@,
                PdfError::Reference(ReferenceFault::MissingPageTree) => text@
                    == "The catalog has no page tree."@,
                PdfError::Validation(ValidationFault::NoPagesLeft) => text@
                    == "Cannot delete all pages."@,
                PdfError::Validation(ValidationFault::InvalidPageOrder) => text@
                    == "Invalid page order."@,
                PdfError::Validation(ValidationFault::EmptyPassword) => text@
                    == "Password cannot be empty."@,
                PdfError::Validation(ValidationFault::CapacityExceeded) => text@
                    == "The document would be too large."@,
            },
    {
        match self {
            PdfError::Io(detail) => detail.clone(),
            PdfError::Parse(detail) => detail.clone(),
            PdfError::Encryption(detail) => detail.clone(),
            PdfError::Reference(ReferenceFault::MissingCatalog) => "No catalog found.".to_owned(),
            PdfError::Reference(ReferenceFault::InvalidCatalog) => "Invalid catalog.".to_owned(),
            PdfError::Reference(ReferenceFault::MissingPageTree) => {
                "The catalog has no page tree.".to_owned()
            },
            PdfError::Validation(ValidationFault::NoPagesLeft) => {
                "Cannot delete all pages.".to_owned()
            },
            PdfError::Validation(ValidationFault::InvalidPageOrder) => {
                "Invalid page order.".to_owned()
            },
            PdfError::Validation(ValidationFault::EmptyPassword) => {
                "Password cannot be empty.".to_owned()
            },
            PdfError::Validation(ValidationFault::CapacityExceeded) => {
                "The document would be too large.".to_owned()
            },
        }
    }
}

} // verus!
