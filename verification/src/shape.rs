use crate::error::SimilarityError;
use vstd::prelude::*;

verus! {

/// The number of leading positions that vectors of `a` and of `b` components
/// have in common.
pub open spec fn overlap(a: int, b: int) -> int {
    if a <= b {
        a
    } else {
        b
    }
}

/// What the cosine comparison makes of two lengths: the positions it reads,
/// or `EmptyVector` when one of the vectors has none.
pub open spec fn cosine_extent(a: int, b: int) -> Result<int, SimilarityError> {
    if a == 0 || b == 0 {
        Err(SimilarityError::EmptyVector)
    } else {
        Ok(overlap(a, b))
    }
}

/// The positions over which a dot product of two vectors runs: those of the
/// shorter one. Unequal lengths are no error.
pub fn shared_length(a: usize, b: usize) -> (n: usize)
    ensures
        n == overlap(a as int, b as int),
{
    if a <= b {
        a
    } else {
        b
    }
}

/// The positions that a cosine comparison of two vectors reads.
///
/// Fails with `EmptyVector` exactly when one of the two lengths is 0.
pub fn cosine_length(a: usize, b: usize) -> (r: Result<usize, SimilarityError>)
    ensures
        match r {
            Ok(n) => cosine_extent(a as int, b as int) == Ok::<int, SimilarityError>(n as int),
            Err(e) => cosine_extent(a as int, b as int) == Err::<int, SimilarityError>(e),
        },
{
    let n = shared_length(a, b);
    if n == 0 {
        Err(SimilarityError::EmptyVector)
    } else {
        Ok(n)
    }
}

/// Which vector comes first makes no difference to the positions read, nor
/// to whether the comparison is refused.
pub proof fn lemma_cosine_extent_symmetric(a: int, b: int)
    ensures
        overlap(a, b) == overlap(b, a),
        cosine_extent(a, b) == cosine_extent(b, a),
{
}

/// Between two vectors of one dimension the comparison is refused only when
/// that dimension is 0, and otherwise reads every position.
pub proof fn lemma_cosine_extent_same_dimension(d: int)
    requires
        d >= 0,
    ensures
        d == 0 ==> cosine_extent(d, d) == Err::<int, SimilarityError>(SimilarityError::EmptyVector),
        d > 0 ==> cosine_extent(d, d) == Ok::<int, SimilarityError>(d),
{
}

} // verus!
