//! What the two kinds of scan share: the steps that a scan answers an entry
//! with, the record of a whole scan, and the search for an equal text.

use crate::error::{Error, ErrorView};
use vstd::prelude::*;

verus! {

/// What a scan asks its caller to do with the entry just observed.
#[derive(Debug, Clone, Copy, PartialEq, Eq)]
pub enum Step {
    /// The entry matches nothing, or is passed over: go on to the next one.
    Skip,
    /// The entry matches the request at this position: apply the transform
    /// to it, then go on to the next one.
    Apply(usize),
    /// The scan has failed: read no further entry.
    Stop,
}

/// A listed entry that matched, and the request that it matched.
#[derive(Debug, Clone, Copy, PartialEq, Eq)]
pub struct Match {
    /// The position of the entry in the listing.
    pub entry: usize,
    /// The position of the name or extension in the request.
    pub request: usize,
}

/// The record of a whole scan.
#[derive(Debug)]
pub struct Report {
    /// The matches, in the order in which the listing yielded them.
    pub applied: Vec<Match>,
    /// How the scan ended.
    pub result: Result<(), Error>,
}

/// A `Report` with sequences in place of vectors.
pub struct ReportView {
    pub applied: Seq<Match>,
    pub result: Result<(), ErrorView>,
}

impl View for Report {
    type V = ReportView;

    open spec fn view(&self) -> ReportView {
        ReportView { applied: self.applied@, result: crate::error::ending(self.result) }
    }
}

/// The least position at or after `from` at which `texts` holds exactly
/// `wanted`, character for character; the length of `texts` if there is none.
pub open spec fn first_equal(texts: Seq<Seq<char>>, wanted: Seq<char>, from: int) -> int
    decreases texts.len() - from,
{
    if from >= texts.len() {
        texts.len() as int
    } else if texts[from] == wanted {
        from
    } else {
        first_equal(texts, wanted, from + 1)
    }
}

/// `first_equal` finds an equal text, and the first one: it stays within
/// the sequence, nothing between `from` and its result equals `wanted`, and
/// short of the end the text at its result does.
pub proof fn lemma_first_equal(texts: Seq<Seq<char>>, wanted: Seq<char>, from: int)
    requires
        0 <= from <= texts.len(),
    ensures
        from <= first_equal(texts, wanted, from) <= texts.len(),
        forall|j: int| from <= j < first_equal(texts, wanted, from) ==> texts[j] != wanted,
        first_equal(texts, wanted, from) < texts.len() ==> texts[first_equal(
            texts,
            wanted,
            from,
        )] == wanted,
    decreases texts.len() - from,
{
    if from < texts.len() && texts[from] != wanted {
        lemma_first_equal(texts, wanted, from + 1);
    }
}

} // verus!
