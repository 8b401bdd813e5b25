//! Pairing scheduler: enumerates the ordered co-location pair matrix over a
//! set of previously profiled workloads and selects one shard of it.
//!
//! The pair matrix over `n` workloads has `n * n` ordered (primary,
//! aggressor) pairs, linearized row-major: index `i` denotes the pair
//! `(i / n, i % n)`. A shard `(start, stride)` selects exactly the indices
//! congruent to `start` modulo `stride`, so that `stride` shards with
//! `start = 0 .. stride-1` together cover every pair exactly once.

use vstd::prelude::*;
use vstd::arithmetic::div_mod::lemma_small_mod;
use crate::errors::ConfigError;

verus! {

/// One ordered co-location experiment: the `primary` workload is measured
/// while the `aggressor` workload runs alongside it. Both fields are indices
/// into the caller's list of workload identities.
#[derive(Clone, Copy, Debug, PartialEq, Eq, Structural)]
pub struct WorkloadPair {
    pub primary: usize,
    pub aggressor: usize,
}

/// The number of ordered pairs over `n` workloads (self-pairing included).
pub open spec fn matrix_size(n: nat) -> nat {
    n * n
}

/// The pair at linear index `i` of the row-major matrix over `n` workloads.
pub open spec fn pair_at(i: int, n: int) -> (int, int) {
    (i / n, i % n)
}

/// Whether linear index `i` belongs to the shard `(start, stride)`.
pub open spec fn in_shard(i: int, start: int, stride: int) -> bool {
    i % stride == start % stride
}

/// Maps a linear matrix index to its ordered pair.
pub fn pair_of_index(i: usize, n: usize) -> (p: WorkloadPair)
    requires
        0 < n,
        i < matrix_size(n as nat),
    ensures
        p.primary == pair_at(i as int, n as int).0,
        p.aggressor == pair_at(i as int, n as int).1,
        p.primary < n,
        p.aggressor < n,
{
    proof {
        lemma_row_major_bounds(i as int, n as int);
    }
    WorkloadPair { primary: i / n, aggressor: i % n }
}

/// Maps an ordered pair back to its linear matrix index.
pub fn index_of_pair(p: WorkloadPair, n: usize) -> (i: usize)
    requires
        p.primary < n,
        p.aggressor < n,
        matrix_size(n as nat) <= usize::MAX,
    ensures
        i < matrix_size(n as nat),
        pair_at(i as int, n as int) == (p.primary as int, p.aggressor as int),
{
    proof {
        lemma_row_major_roundtrip(p.primary as int, p.aggressor as int, n as int);
        assert(p.primary * n + p.aggressor < n * n) by (nonlinear_arith)
            requires p.primary < n && p.aggressor < n && 0 < n;
    }
    p.primary * n + p.aggressor
}

/// Row-major linearization stays inside the matrix and decomposes back into
/// row and column.
proof fn lemma_row_major_bounds(i: int, n: int)
    requires
        0 < n,
        0 <= i < n * n,
    ensures
        0 <= i / n < n,
        0 <= i % n < n,
{
    assert(0 <= i / n < n && 0 <= i % n < n) by (nonlinear_arith)
        requires 0 < n && 0 <= i < n * n;
}

proof fn lemma_row_major_roundtrip(r: int, c: int, n: int)
    requires
        0 < n,
        0 <= r < n,
        0 <= c < n,
    ensures
        (r * n + c) / n == r,
        (r * n + c) % n == c,
{
    assert((r * n + c) / n == r && (r * n + c) % n == c) by (nonlinear_arith)
        requires 0 < n && 0 <= r < n && 0 <= c < n;
}

/// Every matrix index below `m` lies in exactly one of the `stride` shards
/// `(r, stride)` for `r = 0 .. stride-1`: the shards partition the matrix
/// with no overlap and no omission.
pub proof fn lemma_shards_partition(m: int, stride: int, i: int)
    requires
        0 < stride,
        0 <= i < m,
    ensures
        in_shard(i, i % stride, stride),
        0 <= i % stride < stride,
        forall|r: int| 0 <= r < stride && in_shard(i, r, stride) ==> r == i % stride,
{
    lemma_small_mod((i % stride) as nat, stride as nat);
    assert forall|r: int| 0 <= r < stride && in_shard(i, r, stride) implies r == i % stride by {
        lemma_small_mod(r as nat, stride as nat);
    }
}

/// Selects, in increasing order, the linear pair indices of one shard of the
/// matrix over `n` workloads. A zero stride is a configuration error,
/// reported before any index is produced.
pub fn shard_indices(n: usize, start: usize, stride: usize) -> (r: Result<Vec<usize>, ConfigError>)
    requires
        matrix_size(n as nat) <= usize::MAX,
    ensures
        r is Err <==> stride == 0,
        r is Err ==> r->Err_0 == ConfigError::ZeroStride,
        r is Ok ==> {
            let v = r->Ok_0@;
            &&& forall|k: int| 0 <= k < v.len() ==> v[k] < matrix_size(n as nat)
            &&& forall|k: int| 0 <= k < v.len() ==> in_shard(#[trigger] v[k] as int, start as int, stride as int)
            &&& forall|k1: int, k2: int| 0 <= k1 < k2 < v.len() ==> v[k1] < v[k2]
            &&& forall|i: int|
                0 <= i < matrix_size(n as nat) && in_shard(i, start as int, stride as int)
                    ==> exists|k: int| 0 <= k < v.len() && v[k] == i
        },
{
    if stride == 0 {
        return Err(ConfigError::ZeroStride);
    }
    let m = n * n;
    let mut v: Vec<usize> = Vec::new();
    let mut i: usize = 0;
    while i < m
        invariant
            0 < stride,
            m == matrix_size(n as nat),
            i <= m,
            forall|k: int| 0 <= k < v@.len() ==> v@[k] < i,
            forall|k: int| 0 <= k < v@.len() ==> in_shard(#[trigger] v@[k] as int, start as int, stride as int),
            forall|k1: int, k2: int| 0 <= k1 < k2 < v@.len() ==> v@[k1] < v@[k2],
            forall|j: int|
                0 <= j < i && in_shard(j, start as int, stride as int)
                    ==> exists|k: int| 0 <= k < v@.len() && v@[k] == j,
        decreases m - i,
    {
        let ghost v0 = v@;
        if i % stride == start % stride {
            v.push(i);
        }
        proof {
            assert forall|j: int|
                0 <= j < i + 1 && in_shard(j, start as int, stride as int)
                    implies exists|k: int| 0 <= k < v@.len() && v@[k] == j by {
                if j < i {
                    let k0 = choose|k: int| 0 <= k < v0.len() && v0[k] == j;
                    assert(v@[k0] == j);
                } else {
                    assert(v@[v@.len() - 1] == j);
                }
            }
        }
        i = i + 1;
    }
    Ok(v)
}

} // verus!
