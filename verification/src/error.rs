//! The refusals that the library reports.

use vstd::prelude::*;

verus! {

/// Why a request or a stored payload was not accepted.
#[derive(Debug)]
pub enum CcmError {
    /// A request that cannot be carried out.
    Refused(String),
    /// A stored payload that does not hold up.
    InvalidManifest(String),
}

impl CcmError {
    /// The words of the refusal.
    pub open spec fn text(self) -> Seq<char> {
        match self {
            CcmError::Refused(t) => t@,
            CcmError::InvalidManifest(t) => t@,
        }
    }

    /// A request was refused in these words.
    pub open spec fn refuses(self, words: Seq<char>) -> bool {
        self is Refused && self.text() == words
    }

    /// A payload was rejected in these words.
    pub open spec fn rejects(self, words: Seq<char>) -> bool {
        self is InvalidManifest && self.text() == words
    }

    pub fn refused(words: &str) -> (r: CcmError)
        ensures
            r.refuses(words@),
    {
        CcmError::Refused(words.to_owned())
    }

    pub fn invalid(words: &str) -> (r: CcmError)
        ensures
            r.rejects(words@),
    {
        CcmError::InvalidManifest(words.to_owned())
    }

    /// The words of the refusal.
    pub fn message(&self) -> (r: &str)
        ensures
            r@ == self.text(),
    {
        match self {
            CcmError::Refused(t) => t.as_str(),
            CcmError::InvalidManifest(t) => t.as_str(),
        }
    }
}

} // verus!
