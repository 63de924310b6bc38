//! How the cells of the field are shared out among the workers: each worker gets one
//! run of consecutive indices, and the runs differ in length by at most one.

use vstd::prelude::*;

verus! {

/// The first index of the run of worker `k`, where `total` indices are shared out
/// among `workers` workers; for `k == workers`, the end of the last run.
pub open spec fn chunk_start(total: int, workers: int, k: int) -> int {
    k * (total / workers) + if k < total % workers {
        k
    } else {
        total % workers
    }
}

/// Index `i` belongs to the run of worker `k`.
pub open spec fn in_chunk(total: int, workers: int, k: int, i: int) -> bool {
    chunk_start(total, workers, k) <= i < chunk_start(total, workers, k + 1)
}

/// Index `i` belongs to the run of one of the workers.
pub open spec fn is_assigned(total: int, workers: int, i: int) -> bool {
    exists|k: int| 0 <= k < workers && #[trigger] in_chunk(total, workers, k, i)
}

/// Each run starts where the one before it ends, and is as long as the share that
/// every worker gets, plus one for the first workers while a remainder lasts.
pub proof fn lemma_chunk_step(total: int, workers: int, k: int)
    requires
        0 <= total,
        1 <= workers,
        0 <= k < workers,
    ensures
        chunk_start(total, workers, k + 1) == chunk_start(total, workers, k) + total / workers + if k
            < total % workers {
            1int
        } else {
            0int
        },
        0 <= chunk_start(total, workers, k) <= chunk_start(total, workers, k + 1) <= total,
        workers <= total ==> chunk_start(total, workers, k) < chunk_start(total, workers, k + 1),
{
    let base = total / workers;
    let rem = total % workers;
    assert(total == workers * base + rem && 0 <= rem < workers && 0 <= base) by (nonlinear_arith)
        requires
            base == total / workers,
            rem == total % workers,
            0 <= total,
            1 <= workers,
    ;
    assert((k + 1) * base == k * base + base) by (nonlinear_arith);
    assert(0 <= k * base) by (nonlinear_arith)
        requires
            0 <= k,
            0 <= base,
    ;
    assert((k + 1) * base <= workers * base) by (nonlinear_arith)
        requires
            k + 1 <= workers,
            0 <= base,
    ;
    if workers <= total {
        assert(base >= 1) by (nonlinear_arith)
            requires
                total == workers * base + rem,
                rem < workers,
                workers <= total,
                1 <= workers,
        ;
    }
}

/// The runs begin at index 0 and end at `total`.
pub proof fn lemma_chunk_ends(total: int, workers: int)
    requires
        0 <= total,
        1 <= workers,
    ensures
        chunk_start(total, workers, 0) == 0,
        chunk_start(total, workers, workers) == total,
{
    let base = total / workers;
    let rem = total % workers;
    assert(total == workers * base + rem && 0 <= rem < workers) by (nonlinear_arith)
        requires
            base == total / workers,
            rem == total % workers,
            0 <= total,
            1 <= workers,
    ;
    assert(0 * base == 0) by (nonlinear_arith);
}

/// The starts of the runs never go back.
pub proof fn lemma_chunk_monotone(total: int, workers: int, j: int, k: int)
    requires
        0 <= total,
        1 <= workers,
        0 <= j <= k <= workers,
    ensures
        chunk_start(total, workers, j) <= chunk_start(total, workers, k),
    decreases k - j,
{
    if j < k {
        lemma_chunk_step(total, workers, k - 1);
        lemma_chunk_monotone(total, workers, j, k - 1);
    }
}

/// The worker whose run holds index `i`, among the workers from `from` on, where
/// the run of `from` does not start behind `i`.
pub proof fn lemma_chunk_from(total: int, workers: int, i: int, from: int) -> (k: int)
    requires
        1 <= workers,
        0 <= i < total,
        0 <= from < workers,
        chunk_start(total, workers, from) <= i,
    ensures
        from <= k < workers,
        in_chunk(total, workers, k, i),
    decreases workers - from,
{
    lemma_chunk_ends(total, workers);
    if chunk_start(total, workers, from + 1) <= i {
        lemma_chunk_from(total, workers, i, from + 1)
    } else {
        from
    }
}

/// The worker whose run holds index `i`.
pub proof fn lemma_chunk_of(total: int, workers: int, i: int) -> (k: int)
    requires
        1 <= workers,
        0 <= i < total,
    ensures
        0 <= k < workers,
        in_chunk(total, workers, k, i),
{
    lemma_chunk_ends(total, workers);
    lemma_chunk_from(total, workers, i, 0)
}

/// Every index of a square field of side `size` belongs to the run of exactly one of
/// the workers, whatever their number from one to the number of cells; and no
/// worker is left without an index.
pub proof fn lemma_partition_complete(size: int, workers: int)
    requires
        0 <= size,
        1 <= workers <= size * size,
    ensures
        forall|i: int| 0 <= i < size * size ==> #[trigger] is_assigned(size * size, workers, i),
        forall|i: int, j: int, k: int|
            0 <= j < workers && 0 <= k < workers && #[trigger] in_chunk(size * size, workers, j, i)
                && #[trigger] in_chunk(size * size, workers, k, i) ==> j == k,
        forall|i: int, k: int|
            0 <= k < workers && #[trigger] in_chunk(size * size, workers, k, i) ==> 0 <= i < size
                * size,
        forall|k: int|
            0 <= k < workers ==> #[trigger] chunk_start(size * size, workers, k) < chunk_start(
                size * size,
                workers,
                k + 1,
            ),
{
    let total = size * size;
    assert forall|i: int| 0 <= i < total implies #[trigger] is_assigned(total, workers, i) by {
        let k = lemma_chunk_of(total, workers, i);
        assert(in_chunk(total, workers, k, i));
    }
    assert forall|i: int, j: int, k: int|
        0 <= j < workers && 0 <= k < workers && #[trigger] in_chunk(total, workers, j, i)
            && #[trigger] in_chunk(total, workers, k, i) implies j == k by {
        if j < k {
            lemma_chunk_monotone(total, workers, j + 1, k);
        } else if k < j {
            lemma_chunk_monotone(total, workers, k + 1, j);
        }
    }
    assert forall|i: int, k: int| 0 <= k < workers && #[trigger] in_chunk(total, workers, k, i) implies 0
        <= i < total by {
        lemma_chunk_step(total, workers, k);
    }
    assert forall|k: int| 0 <= k < workers implies #[trigger] chunk_start(total, workers, k)
        < chunk_start(total, workers, k + 1) by {
        lemma_chunk_step(total, workers, k);
    }
}

/// The run of worker `k`: its first index, and the index behind its last.
pub fn chunk_bounds(total: u64, workers: u64, k: u64) -> (r: (u64, u64))
    requires
        1 <= workers,
        k < workers,
    ensures
        r.0 == chunk_start(total as int, workers as int, k as int),
        r.1 == chunk_start(total as int, workers as int, k + 1),
        r.0 <= r.1 <= total,
{
    let base: u64 = total / workers;
    let rem: u64 = total % workers;
    proof {
        lemma_chunk_step(total as int, workers as int, k as int);
        assert(0 <= k * base <= total) by (nonlinear_arith)
            requires
                k < workers,
                base == total / workers,
                1 <= workers,
                0 <= total,
        ;
    }
    let extra: u64 = if k < rem {
        k
    } else {
        rem
    };
    let start: u64 = k * base + extra;
    let len: u64 = if k < rem {
        base + 1
    } else {
        base
    };
    (start, start + len)
}

} // verus!
