//! Error types for document conversion.
//!
//! The primary error type is [`ConvertError`], which covers all failure modes
//! from unsupported formats to I/O and parsing errors.
use vstd::prelude::*;

verus! {

/// Error of `String::from_utf8`.
#[verifier::external_type_specification]
#[verifier::external_body]
pub struct ExFromUtf8Error(std::string::FromUtf8Error);

/// An I/O error.
#[verifier::external_type_specification]
#[verifier::external_body]
pub struct ExIoError(std::io::Error);

/// Error of the `zip` crate.
#[verifier::external_type_specification]
#[verifier::external_body]
pub struct ExZipError(zip::result::ZipError);

/// Error of the `quick-xml` crate.
#[verifier::external_type_specification]
#[verifier::external_body]
pub struct ExXmlError(quick_xml::Error);

/// Error of the `calamine` crate.
#[verifier::external_type_specification]
#[verifier::external_body]
pub struct ExSpreadsheetError(calamine::Error);

/// Errors that can occur during document conversion.
///
/// Most conversion operations return `Result<ConversionResult, ConvertError>`.
#[derive(Debug)]
pub enum ConvertError {
    /// The file format is not recognized by any converter.
    UnsupportedFormat {
        /// The file extension or format identifier that was not recognized.
        extension: String,
    },
    /// The format is recognized but intentionally not supported, with a reason.
    FormatNotSupported {
        /// The file extension or format identifier.
        extension: String,
        /// Explanation of why this format is not supported.
        reason: String,
    },
    /// The input data exceeds the configured size limit.
    InputTooLarge {
        /// Actual size of the input in bytes.
        size: usize,
        /// Maximum allowed size in bytes.
        limit: usize,
    },
    /// Failed to read or decompress a ZIP archive (DOCX, PPTX, XLSX).
    ZipError(zip::result::ZipError),
    /// Failed to parse XML content within a document.
    XmlError(quick_xml::Error),
    /// Failed to read a spreadsheet file (XLSX or XLS).
    SpreadsheetError(calamine::Error),
    /// An I/O error occurred while reading the file.
    Io(std::io::Error),
    /// The input data is not valid UTF-8.
    Utf8Error(std::string::FromUtf8Error),
    /// The document structure is malformed beyond recovery.
    MalformedDocument {
        /// Description of the structural problem.
        reason: String,
    },
    /// An LLM image description call failed.
    ImageDescriptionError {
        /// Description of the failure.
        reason: String,
    },
}

} // verus!
