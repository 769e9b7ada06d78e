//! Batching of embedding requests: which texts go to the backend together,
//! and how the answers are put back in input order.
//!
//! The vectors themselves are opaque here (`V`); only their number and order
//! matter to the batching rules.

use vstd::prelude::*;

verus! {

/// How many texts go to the embedding backend in one request.
pub struct BatchConfig {
    pub batch_size: usize,
}

impl Default for BatchConfig {
    fn default() -> (r: Self)
        ensures
            r.batch_size == 32,
    {
        BatchConfig { batch_size: 32 }
    }
}

/// Why embeddings could not be had.
pub enum EmbeddingError {
    /// The backend failed or answered with the wrong number of vectors.
    ProviderError(String),
    /// The backend returned no vector for a single text.
    NoProviderConfigured,
}

/// The number of requests for `total` texts in batches of `size`.
pub open spec fn batch_count(total: int, size: int) -> int {
    (total + size - 1) / size
}

/// The texts `[start, end)` of request `i`.
pub open spec fn batch_span(total: int, size: int, i: int) -> (int, int) {
    (i * size, if (i + 1) * size < total { (i + 1) * size } else { total })
}

/// The requests for `total` texts, `batch_size` at most in each, in input
/// order: none for no texts, one when they all fit.
pub fn batch_ranges(total: usize, batch_size: usize) -> (r: Vec<(usize, usize)>)
    requires
        batch_size > 0,
    ensures
        r.len() == batch_count(total as int, batch_size as int),
        forall|i: int|
            0 <= i < r.len() ==> (#[trigger] r@[i]).0 as int == batch_span(
                total as int,
                batch_size as int,
                i,
            ).0 && r@[i].1 as int == batch_span(total as int, batch_size as int, i).1,
        total == 0 ==> r.len() == 0,
        0 < total <= batch_size ==> r.len() == 1,
{
    let mut r: Vec<(usize, usize)> = Vec::new();
    let mut start: usize = 0;
    proof {
        assert(r.len() * batch_size == 0) by (nonlinear_arith)
            requires
                r.len() == 0,
        ;
        if total == 0 {
            assert(batch_count(0, batch_size as int) == 0) by (nonlinear_arith)
                requires
                    batch_size > 0,
            ;
        } else {
            assert(0 < batch_count(total as int, batch_size as int)) by (nonlinear_arith)
                requires
                    total > 0,
                    batch_size > 0,
            ;
        }
    }
    while start < total
        invariant
            batch_size > 0,
            start <= total,
            start == r.len() * batch_size || start == total,
            start < total ==> start == r.len() * batch_size,
            r.len() * batch_size < total + batch_size,
            start == total ==> r.len() == batch_count(total as int, batch_size as int),
            start < total ==> r.len() < batch_count(total as int, batch_size as int),
            forall|i: int|
                0 <= i < r.len() ==> (#[trigger] r@[i]).0 as int == batch_span(
                    total as int,
                    batch_size as int,
                    i,
                ).0 && r@[i].1 as int == batch_span(total as int, batch_size as int, i).1,
        decreases total - start,
    {
        let end = if batch_size < total - start { start + batch_size } else { total };
        let ghost k = r.len() as int;
        r.push((start, end));
        proof {
            let b = batch_size as int;
            assert((k + 1) * b == k * b + b) by (nonlinear_arith);
            if end < total {
                assert(end as int == (k + 1) * b);
                assert(k + 1 < batch_count(total as int, b)) by (nonlinear_arith)
                    requires
                        (k + 1) * b < total,
                        b > 0,
                ;
            } else {
                assert(k + 1 == batch_count(total as int, b)) by (nonlinear_arith)
                    requires
                        k * b < total,
                        total <= k * b + b,
                        b > 0,
                ;
            }
        }
        start = end;
    }
    proof {
        if 0 < total && total <= batch_size {
            assert(batch_count(total as int, batch_size as int) == 1) by (nonlinear_arith)
                requires
                    0 < total <= batch_size,
            ;
        }
        if total == 0 {
            assert(batch_count(0, batch_size as int) == 0) by (nonlinear_arith)
                requires
                    batch_size > 0,
            ;
        }
    }
    r
}

/// Appends the answer to one request to the vectors gathered so far; an
/// answer with other than `expected` vectors is refused and nothing is kept.
pub fn append_batch<V>(all: &mut Vec<V>, batch: Vec<V>, expected: usize) -> (r: Result<(), EmbeddingError>)
    ensures
        r is Ok <==> batch.len() == expected,
        r is Ok ==> final(all)@ == old(all)@ + batch@,
        r is Err ==> final(all)@ == old(all)@ && r matches Err(EmbeddingError::ProviderError(_)),
{
    if batch.len() != expected {
        return Err(EmbeddingError::ProviderError(String::from_str("wrong number of embeddings")));
    }
    let mut batch = batch;
    all.append(&mut batch);
    Ok(())
}

/// The vector for a single text: the last one returned, if any.
pub fn single_embedding<V>(all: Vec<V>) -> (r: Result<V, EmbeddingError>)
    ensures
        all.len() == 0 <==> r matches Err(EmbeddingError::NoProviderConfigured),
        all.len() > 0 ==> r == Ok::<V, EmbeddingError>(all@.last()),
{
    let mut all = all;
    match all.pop() {
        Some(v) => Ok(v),
        None => Err(EmbeddingError::NoProviderConfigured),
    }
}

} // verus!
