use vstd::prelude::*;

verus! {

/// Why a scoring run was refused.
#[derive(Clone, Copy, Debug, PartialEq, Eq, Structural)]
pub enum SimilarityError {
    /// A vector handed to the cosine comparison has no components.
    EmptyVector,
    /// The members of a batch do not all have the same number of components.
    DimensionMismatch,
    /// There is no corpus vector to compare the query with.
    EmptyCorpus,
}

impl SimilarityError {
    /// The text that goes with each variant.
    pub open spec fn message_text(self) -> Seq<char> {
        match self {
            SimilarityError::EmptyVector => "embedding has no components"@,
            SimilarityError::DimensionMismatch => "embeddings differ in dimension"@,
            SimilarityError::EmptyCorpus => "corpus is empty"@,
        }
    }

    /// A short description of the error, for a caller that reports it.
    pub fn message(&self) -> (text: &'static str)
        ensures
            text@ == self.message_text(),
    {
        match self {
            SimilarityError::EmptyVector => "embedding has no components",
            SimilarityError::DimensionMismatch => "embeddings differ in dimension",
            SimilarityError::EmptyCorpus => "corpus is empty",
        }
    }
}

} // verus!
