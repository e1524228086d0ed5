use crate::error::SimilarityError;
use vstd::prelude::*;

verus! {

/// Every member of `rows` has exactly `dimension` components.
pub open spec fn uniform<T>(rows: Seq<Vec<T>>, dimension: int) -> bool {
    forall|i: int| 0 <= i < rows.len() ==> (#[trigger] rows[i]).len() == dimension
}

/// The joint batch of a query and a corpus: the query first, then the corpus
/// in its own order.
pub open spec fn joint_rows<T>(query: Vec<T>, corpus: Seq<Vec<T>>) -> Seq<Vec<T>> {
    seq![query] + corpus
}

/// The corpus part of a joint batch: everything after the first member.
pub open spec fn corpus_rows<T>(rows: Seq<Vec<T>>) -> Seq<Vec<T>> {
    rows.subrange(1, rows.len() as int)
}

/// The rule that a run needs at least one corpus vector.
///
/// Takes the number of corpus entries, so that it can be asked before any
/// entry has been turned into a vector.
pub fn require_corpus(count: usize) -> (r: Result<usize, SimilarityError>)
    ensures
        count == 0 ==> r == Err::<usize, SimilarityError>(SimilarityError::EmptyCorpus),
        count > 0 ==> r == Ok::<usize, SimilarityError>(count),
{
    if count == 0 {
        Err(SimilarityError::EmptyCorpus)
    } else {
        Ok(count)
    }
}

/// The dimension shared by all members of `rows`, which is that of the first
/// member, or `DimensionMismatch` if some member has another length.
///
/// Only lengths are read: no component is touched.
pub fn common_dimension<T>(rows: &Vec<Vec<T>>) -> (r: Result<usize, SimilarityError>)
    requires
        rows@.len() > 0,
    ensures
        uniform(rows@, rows@[0].len() as int) ==> r == Ok::<usize, SimilarityError>(
            rows@[0].len(),
        ),
        !uniform(rows@, rows@[0].len() as int) ==> r == Err::<usize, SimilarityError>(
            SimilarityError::DimensionMismatch,
        ),
{
    let dimension: usize = rows[0].len();
    let mut i: usize = 1;
    while i < rows.len()
        invariant
            1 <= i <= rows@.len(),
            dimension == rows@[0].len(),
            forall|k: int| 0 <= k < i ==> (#[trigger] rows@[k]).len() == dimension,
        decreases rows@.len() - i,
    {
        if rows[i].len() != dimension {
            return Err(SimilarityError::DimensionMismatch);
        }
        i += 1;
    }
    Ok(dimension)
}

/// A non-empty sequence of vectors that all have the same number of
/// components, in the order in which they were given.
///
/// The component type is the caller's: the batch decides shapes and
/// positions and never computes with a component.
pub struct EmbeddingBatch<T> {
    rows: Vec<Vec<T>>,
    dimension: usize,
}

impl<T> EmbeddingBatch<T> {
    #[verifier::type_invariant]
    spec fn well_formed(self) -> bool {
        &&& self.rows@.len() > 0
        &&& uniform(self.rows@, self.dimension as int)
    }

    /// The members, in order.
    pub closed spec fn rows(self) -> Seq<Vec<T>> {
        self.rows@
    }

    /// The number of components of every member.
    pub closed spec fn dim(self) -> int {
        self.dimension as int
    }

    /// Checks `rows` and keeps them as a batch.
    ///
    /// Succeeds exactly when all members have the length of the first one.
    pub fn from_rows(rows: Vec<Vec<T>>) -> (r: Result<Self, SimilarityError>)
        requires
            rows@.len() > 0,
        ensures
            uniform(rows@, rows@[0].len() as int) ==> (r matches Ok(b) && b.rows() == rows@
                && b.dim() == rows@[0].len()),
            !uniform(rows@, rows@[0].len() as int) ==> r matches Err(
                SimilarityError::DimensionMismatch,
            ),
    {
        match common_dimension(&rows) {
            Ok(dimension) => Ok(EmbeddingBatch { rows, dimension }),
            Err(e) => Err(e),
        }
    }

    /// Builds the batch that is processed as one: `query` at position 0,
    /// then `corpus` in its order.
    ///
    /// An empty corpus is refused first; after that, a member whose length
    /// differs from the query's.
    pub fn joint(query: Vec<T>, corpus: Vec<Vec<T>>) -> (r: Result<Self, SimilarityError>)
        ensures
            corpus@.len() == 0 ==> r matches Err(SimilarityError::EmptyCorpus),
            corpus@.len() > 0 && !uniform(corpus@, query.len() as int) ==> r matches Err(
                SimilarityError::DimensionMismatch,
            ),
            corpus@.len() > 0 && uniform(corpus@, query.len() as int) ==> (r matches Ok(b)
                && b.rows() == joint_rows(query, corpus@) && b.dim() == query.len()),
    {
        match require_corpus(corpus.len()) {
            Err(e) => Err(e),
            Ok(_) => {
                let mut rows = corpus;
                rows.insert(0, query);
                proof {
                    assert(rows@ =~= joint_rows(query, corpus@));
                    if uniform(corpus@, query.len() as int) {
                        assert forall|i: int| 0 <= i < rows@.len() implies (#[trigger] rows@[i]).len()
                            == query.len() by {
                            if i > 0 {
                                assert(rows@[i] == corpus@[i - 1]);
                            }
                        }
                    } else {
                        let k = choose|k: int|
                            0 <= k < corpus@.len() && (#[trigger] corpus@[k]).len() != query.len();
                        assert(rows@[k + 1] == corpus@[k]);
                    }
                }
                Self::from_rows(rows)
            },
        }
    }

    /// The number of components of every member.
    pub fn dimension(&self) -> (d: usize)
        ensures
            d == self.dim(),
            uniform(self.rows(), d as int),
    {
        proof {
            use_type_invariant(self);
        }
        self.dimension
    }

    /// The number of members, which is at least one.
    pub fn len(&self) -> (n: usize)
        ensures
            n == self.rows().len(),
            n > 0,
    {
        proof {
            use_type_invariant(self);
        }
        self.rows.len()
    }

    /// Gives the members back, in order.
    pub fn into_rows(self) -> (rows: Vec<Vec<T>>)
        ensures
            rows@ == self.rows(),
            rows@.len() > 0,
            uniform(rows@, self.dim()),
    {
        proof {
            use_type_invariant(&self);
        }
        self.rows
    }

    /// Parts a joint batch again: the member at position 0, and the rest in
    /// order.
    pub fn split(self) -> (parts: (Vec<T>, Vec<Vec<T>>))
        ensures
            parts.0 == self.rows()[0],
            parts.1@ == corpus_rows(self.rows()),
            parts.0.len() == self.dim(),
            uniform(parts.1@, self.dim()),
    {
        proof {
            use_type_invariant(&self);
        }
        let mut rows = self.rows;
        let query = rows.remove(0);
        proof {
            assert(rows@ =~= corpus_rows(self.rows()));
        }
        (query, rows)
    }
}

/// Parting a joint batch gives back the query and the corpus it was built
/// from, the corpus in the order in which it was given.
pub proof fn lemma_split_undoes_joint<T>(query: Vec<T>, corpus: Seq<Vec<T>>)
    ensures
        joint_rows(query, corpus)[0] == query,
        corpus_rows(joint_rows(query, corpus)) == corpus,
        joint_rows(query, corpus).len() == corpus.len() + 1,
{
    assert(corpus_rows(joint_rows(query, corpus)) =~= corpus);
}

} // verus!
