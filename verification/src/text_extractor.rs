//! What is done to the text of a page once it has been extracted.

use crate::error::{concat_text, ProcessingError};
use crate::patterns::{regex_compiles, regex_source};
use crate::text::{trim, trimmed};
use crate::text_preprocessor::{collapse_white, compiled, regex_replace_all};
use regex::Regex;
use vstd::prelude::*;

verus! {

/// Cleans the raw text of a page.
pub struct TextExtractor {
    cleanup_regex: Option<Regex>,
}

impl TextExtractor {
    /// Whether runs of white space are cut down.
    pub closed spec fn cleans(&self) -> bool {
        self.cleanup_regex is Some
    }

    #[verifier::type_invariant]
    spec fn inv(&self) -> bool {
        self.cleanup_regex is Some ==> regex_source(self.cleanup_regex->Some_0) == r"\s+"@
    }

    /// The text with every run of white space cut down to one space, where
    /// that step is there, and with its ends trimmed.
    pub open spec fn cleanup_spec(&self, text: Seq<char>) -> Seq<char> {
        trimmed(
            if self.cleans() {
                collapse_white(text)
            } else {
                text
            },
        )
    }

    /// What becomes of the text of a page: nothing where it is empty, else
    /// the text cleaned up.
    pub open spec fn page_text_spec(&self, raw_text: Seq<char>) -> Seq<char> {
        if raw_text.len() == 0 {
            raw_text
        } else {
            self.cleanup_spec(raw_text)
        }
    }

    /// An extractor with its pattern. White space is cut down where the
    /// pattern compiles.
    pub fn new() -> (r: Self)
        ensures
            r.cleans() <==> regex_compiles(r"\s+"@),
    {
        TextExtractor { cleanup_regex: compiled(r"\s+") }
    }

    /// Takes what the extraction of a page gave, its text or the words of
    /// its failure, and gives the clean text of the page, or the failure
    /// with the number of the page.
    pub fn extract_page_text(&self, raw_text: Result<String, String>, page_index: usize) -> (r: Result<String, ProcessingError>)
        ensures
            r is Ok <==> raw_text is Ok,
            r is Ok ==> r->Ok_0@ == self.page_text_spec(raw_text->Ok_0@),
            r is Err ==> (r->Err_0 matches ProcessingError::TextExtractionError { page, error } && page == page_index
                && error@ == "pdfium extraction failed: "@ + raw_text->Err_0@),
    {
        let raw_text = match raw_text {
            Ok(raw_text) => raw_text,
            Err(e) => {
                return Err(
                    ProcessingError::TextExtractionError {
                        page: page_index,
                        error: concat_text("pdfium extraction failed: ", e.as_str()),
                    },
                );
            },
        };
        if raw_text.as_str().is_empty() {
            return Ok(String::new());
        }
        Ok(self.cleanup_text(raw_text.as_str()))
    }

    /// Cuts every run of white space down to one space and trims the ends.
    pub fn cleanup_text(&self, text: &str) -> (r: String)
        ensures
            r@ == self.cleanup_spec(text@),
    {
        proof {
            use_type_invariant(self);
        }
        let normalized = match &self.cleanup_regex {
            Some(re) => regex_replace_all(re, text, " "),
            None => text.to_owned(),
        };
        trim(normalized.as_str())
    }
}

} // verus!
