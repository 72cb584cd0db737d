use vstd::prelude::*;
use crate::order::{compare_text, utf8, Rank, Ranked, rank_lt};

verus! {

/// How one file's language was determined, and which file it was.
pub struct FileDetection {
    pub strategy: String,
    pub path: String,
}

/// One language with the detections that assigned files to it.
pub struct LanguageGroup {
    pub language: String,
    pub files: Vec<FileDetection>,
}

/// The type category of a language.
#[derive(Clone, Copy, Debug, PartialEq, Eq, Structural)]
pub enum LanguageKind {
    Data,
    Markup,
    Programming,
    Prose,
}

impl LanguageGroup {
    /// The number of files detected as this language.
    pub open spec fn count(&self) -> nat {
        self.files@.len()
    }
}

impl Ranked for LanguageGroup {
    open spec fn rank(&self) -> Rank {
        Rank { count: self.count() as int, first: utf8(self.language@), second: seq![], third: seq![] }
    }

    fn precedes(&self, other: &Self) -> (r: bool) {
        let a = self.files.len();
        let b = other.files.len();
        if a != b {
            a > b
        } else {
            let r = compare_text(self.language.as_str(), other.language.as_str()) < 0;
            assert(!crate::order::bytes_lt(Seq::<u8>::empty(), Seq::<u8>::empty()));
            r
        }
    }
}

} // verus!
