//! Sharing a run of targets among workers: contiguous chunks of equal
//! size, the last one taking what is left over.

use vstd::prelude::*;

verus! {

/// The number of chunks that `len` targets are split into when `n` workers
/// are asked for: `n`, but at least one and at most one per target, and
/// none where there is no target.
pub open spec fn worker_count(len: nat, n: nat) -> nat {
    if len == 0 {
        0
    } else if n == 0 {
        1
    } else if n > len {
        len
    } else {
        n
    }
}

/// The size of every chunk but the last.
pub open spec fn chunk_size(len: nat, n: nat) -> nat {
    if len == 0 {
        0
    } else {
        len / worker_count(len, n)
    }
}

/// The first position of chunk `k`.
pub open spec fn chunk_start(len: nat, n: nat, k: int) -> int {
    k * chunk_size(len, n)
}

/// The position after the last one of chunk `k`: the last chunk runs to the
/// end.
pub open spec fn chunk_end(len: nat, n: nat, k: int) -> int {
    if k + 1 == worker_count(len, n) {
        len as int
    } else {
        (k + 1) * chunk_size(len, n)
    }
}

/// The chunks follow one another from the first target to the last, and
/// none of them is empty.
pub proof fn lemma_chunks_partition(len: nat, n: nat, k: int)
    requires
        0 <= k < worker_count(len, n),
    ensures
        0 <= chunk_start(len, n, k) < chunk_end(len, n, k) <= len,
        chunk_start(len, n, 0) == 0,
        k + 1 < worker_count(len, n) ==> chunk_end(len, n, k) == chunk_start(len, n, k + 1),
        k + 1 == worker_count(len, n) ==> chunk_end(len, n, k) == len,
        chunk_size(len, n) >= 1,
        chunk_start(len, n, k) + chunk_size(len, n) <= chunk_end(len, n, k),
        k + 1 < worker_count(len, n) ==> chunk_start(len, n, k) + chunk_size(len, n)
            == chunk_end(len, n, k),
{
    let w = worker_count(len, n) as int;
    let size = chunk_size(len, n) as int;
    assert(1 <= w <= len);
    assert(size >= 1 && w * size <= len) by (nonlinear_arith)
        requires
            1 <= w <= len,
            size == len as int / w,
    ;
    assert(0 <= k * size && k * size < (k + 1) * size && (k + 1) * size <= w * size && (k + 1)
        * size == k * size + size) by (nonlinear_arith)
        requires
            0 <= k < w,
            size >= 1,
    ;
}

/// The chunks that `len` targets are split into for `n` workers, each as
/// the pair of its first position and the position after its last.
pub fn chunk_ranges(len: usize, n: usize) -> (r: Vec<(usize, usize)>)
    ensures
        r@.len() == worker_count(len as nat, n as nat),
        forall|k: int|
            0 <= k < r@.len() ==> (#[trigger] r@[k]).0 == chunk_start(len as nat, n as nat, k)
                && r@[k].1 == chunk_end(len as nat, n as nat, k),
        forall|k: int| 0 <= k < r@.len() ==> (#[trigger] r@[k]).0 < r@[k].1 <= len,
        forall|k: int| 0 < k < r@.len() ==> (#[trigger] r@[k]).0 == r@[k - 1].1,
        r@.len() > 0 ==> r@[0].0 == 0 && r@[r@.len() - 1].1 == len,
{
    let mut r: Vec<(usize, usize)> = Vec::new();
    if len == 0 {
        return r;
    }
    let workers: usize = if n == 0 {
        1
    } else if n > len {
        len
    } else {
        n
    };
    let size: usize = len / workers;
    let mut k: usize = 0;
    let mut start: usize = 0;
    while k < workers
        invariant
            k <= workers,
            workers == worker_count(len as nat, n as nat),
            size == chunk_size(len as nat, n as nat),
            len > 0,
            r@.len() == k,
            k < workers ==> start == chunk_start(len as nat, n as nat, k as int),
            forall|i: int|
                0 <= i < k ==> (#[trigger] r@[i]).0 == chunk_start(len as nat, n as nat, i)
                    && r@[i].1 == chunk_end(len as nat, n as nat, i),
            forall|i: int| 0 <= i < k ==> (#[trigger] r@[i]).0 < r@[i].1 <= len,
            forall|i: int| 0 < i < k ==> (#[trigger] r@[i]).0 == r@[i - 1].1,
            k > 0 ==> r@[0].0 == 0,
            0 < k < workers ==> r@[k - 1].1 == start,
            k == workers ==> r@[k - 1].1 == len,
        decreases workers - k,
    {
        proof {
            lemma_chunks_partition(len as nat, n as nat, k as int);
            if k + 1 < workers {
                lemma_chunks_partition(len as nat, n as nat, k as int + 1);
            }
        }
        let end: usize = if k + 1 == workers {
            len
        } else {
            start + size
        };
        r.push((start, end));
        start = end;
        k += 1;
    }
    r
}

/// Adds `part` to `total`, position by position. Nothing is added, and the
/// answer is `false`, where the two differ in length or a sum would not
/// fit.
pub fn add_scores(total: &mut Vec<usize>, part: &Vec<usize>) -> (r: bool)
    ensures
        r == (old(total)@.len() == part@.len() && forall|j: int|
            0 <= j < part@.len() ==> old(total)@[j] + part@[j] <= usize::MAX),
        !r ==> final(total)@ == old(total)@,
        r ==> final(total)@.len() == part@.len() && forall|j: int|
            0 <= j < part@.len() ==> #[trigger] final(total)@[j] == old(total)@[j] + part@[j],
{
    let n = part.len();
    if total.len() != n {
        return false;
    }
    let mut j: usize = 0;
    while j < n
        invariant
            j <= n,
            n == part@.len(),
            total@ == old(total)@,
            total@.len() == n,
            forall|i: int| 0 <= i < j ==> total@[i] + part@[i] <= usize::MAX,
        decreases n - j,
    {
        if total[j] > usize::MAX - part[j] {
            return false;
        }
        j += 1;
    }
    let mut j: usize = 0;
    while j < n
        invariant
            j <= n,
            n == part@.len(),
            total@.len() == n,
            old(total)@.len() == n,
            forall|i: int| 0 <= i < n ==> old(total)@[i] + part@[i] <= usize::MAX,
            forall|i: int| 0 <= i < j ==> #[trigger] total@[i] == old(total)@[i] + part@[i],
            forall|i: int| j <= i < n ==> #[trigger] total@[i] == old(total)@[i],
        decreases n - j,
    {
        total.set(j, total[j] + part[j]);
        j += 1;
    }
    true
}

} // verus!
