//! The errors that processing reports.

use crate::text::{decimal_string, decimal_text};
use vstd::prelude::*;
use vstd::string::StringExecFns;

verus! {

/// What went wrong while a document was processed.
#[derive(Debug, Clone)]
pub enum ProcessingError {
    /// The document could not be loaded.
    PdfLoadError(String),
    /// The text of one page could not be extracted.
    TextExtractionError { page: usize, error: String },
    /// A page could not be cut into chunks.
    ChunkingError(String),
    /// The parallel runtime could not be set up or failed.
    ParallelError(String),
    /// Reading or writing failed.
    IoError(String),
    /// The tokenizer or its vocabulary is unusable, or tokens do not decode.
    SystemError(String),
}

/// `head` followed by `tail`.
pub fn concat_text(head: &str, tail: &str) -> (r: String)
    ensures
        r@ == head@ + tail@,
{
    let mut r = head.to_owned();
    r.append(tail);
    r
}

impl ProcessingError {
    /// The message of the error: the words for its kind, then its text.
    pub open spec fn message_spec(&self) -> Seq<char> {
        match self {
            ProcessingError::PdfLoadError(s) => "PDF loading failed: "@ + s@,
            ProcessingError::TextExtractionError { page, error } => "Text extraction failed on page "@
                + decimal_text(*page as nat) + ": "@ + error@,
            ProcessingError::ChunkingError(s) => "Chunking failed: "@ + s@,
            ProcessingError::ParallelError(s) => "Parallel processing error: "@ + s@,
            ProcessingError::IoError(s) => "IO error: "@ + s@,
            ProcessingError::SystemError(s) => "System error: "@ + s@,
        }
    }

    /// The message of the error.
    pub fn message(&self) -> (r: String)
        ensures
            r@ == self.message_spec(),
    {
        match self {
            ProcessingError::PdfLoadError(s) => concat_text("PDF loading failed: ", s.as_str()),
            ProcessingError::TextExtractionError { page, error } => {
                let mut r = "Text extraction failed on page ".to_owned();
                let number = decimal_string(*page);
                r.append(number.as_str());
                r.append(": ");
                r.append(error.as_str());
                r
            },
            ProcessingError::ChunkingError(s) => concat_text("Chunking failed: ", s.as_str()),
            ProcessingError::ParallelError(s) => concat_text("Parallel processing error: ", s.as_str()),
            ProcessingError::IoError(s) => concat_text("IO error: ", s.as_str()),
            ProcessingError::SystemError(s) => concat_text("System error: ", s.as_str()),
        }
    }
}

} // verus!
