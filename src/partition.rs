use vstd::prelude::*;
use crate::tokenizer::{aligned, is_delimiter, tokens};

verus! {

/// A half-open byte range `[start, end)` scanned by one worker.
pub type Partition = (usize, usize);

/// The first aligned position at or after `m` (the end of `data` when there is none).
pub open spec fn snap(data: Seq<u8>, m: int) -> int
    decreases data.len() - m,
{
    if m >= data.len() {
        data.len() as int
    } else if m <= 0 || aligned(data, m) {
        if m <= 0 { 0 } else { m }
    } else {
        snap(data, m + 1)
    }
}

/// Boundary `i` of a split into `n` parts: the equal-width cut `i * (len / n)`
/// moved forward to the next aligned position; boundary `n` is the end.
pub open spec fn boundary(data: Seq<u8>, n: int, i: int) -> int {
    if i >= n {
        data.len() as int
    } else {
        snap(data, i * (data.len() as int / n))
    }
}

/// The partitions of a split into `n` workers, in order.
pub open spec fn partitions(data: Seq<u8>, n: int) -> Seq<(int, int)> {
    Seq::new(n as nat, |i: int| (boundary(data, n, i), boundary(data, n, i + 1)))
}

/// The tokens of the first `k` partitions of a split into `n`, one after another.
pub open spec fn partition_tokens(data: Seq<u8>, n: int, k: int) -> Seq<(Seq<u8>, u64)>
    decreases k,
{
    if k <= 0 {
        Seq::empty()
    } else {
        partition_tokens(data, n, k - 1) + tokens(data, boundary(data, n, k - 1), boundary(data, n, k))
    }
}

proof fn lemma_snap_mono(data: Seq<u8>, m: int, m2: int)
    requires
        0 <= m <= m2,
    ensures
        snap(data, m) <= snap(data, m2),
    decreases data.len() - m,
{
    if m2 >= data.len() {
        lemma_snap_le_len(data, m);
    } else if m == m2 {
    } else if m == 0 || aligned(data, m) {
        lemma_snap_ge(data, m2);
    } else {
        lemma_snap_mono(data, m + 1, m2);
    }
}

proof fn lemma_snap_le_len(data: Seq<u8>, m: int)
    ensures
        snap(data, m) <= data.len(),
    decreases data.len() - m,
{
    if m < data.len() && !(m <= 0 || aligned(data, m)) {
        lemma_snap_le_len(data, m + 1);
    }
}

proof fn lemma_snap_ge(data: Seq<u8>, m: int)
    requires
        0 <= m <= data.len(),
    ensures
        m <= snap(data, m),
    decreases data.len() - m,
{
    if m < data.len() && !(m == 0 || aligned(data, m)) {
        lemma_snap_ge(data, m + 1);
    }
}

proof fn lemma_snap_aligned(data: Seq<u8>, m: int)
    requires
        0 <= m,
    ensures
        aligned(data, snap(data, m)),
    decreases data.len() - m,
{
    if m < data.len() && !(m == 0 || aligned(data, m)) {
        lemma_snap_aligned(data, m + 1);
    }
}

/// Boundaries run from the start to the end of `data`, never decrease, and are aligned.
pub proof fn lemma_boundaries(data: Seq<u8>, n: int)
    requires
        n >= 1,
    ensures
        boundary(data, n, 0) == 0,
        boundary(data, n, n) == data.len(),
        forall|i: int| 0 <= i <= n ==> aligned(data, #[trigger] boundary(data, n, i)),
        forall|i: int, j: int|
            0 <= i <= j <= n ==> #[trigger] boundary(data, n, i) <= #[trigger] boundary(data, n, j),
{
    let w = data.len() as int / n;
    assert(w >= 0) by (nonlinear_arith)
        requires
            n >= 1,
            data.len() >= 0,
            w == data.len() as int / n,
    ;
    assert(0 * w == 0);
    assert forall|i: int| 0 <= i <= n implies aligned(data, #[trigger] boundary(data, n, i)) by {
        if i < n {
            assert(i * w >= 0) by (nonlinear_arith)
                requires
                    i >= 0,
                    w >= 0,
            ;
            lemma_snap_aligned(data, i * w);
        }
    }
    assert forall|i: int, j: int| 0 <= i <= j <= n implies #[trigger] boundary(data, n, i) <= #[trigger] boundary(
        data,
        n,
        j,
    ) by {
        assert(i * w >= 0) by (nonlinear_arith)
            requires
                i >= 0,
                w >= 0,
        ;
        if j >= n {
            lemma_snap_le_len(data, i * w);
        } else {
            assert(i * w <= j * w) by (nonlinear_arith)
                requires
                    i <= j,
                    w >= 0,
            ;
            lemma_snap_mono(data, i * w, j * w);
        }
    }
}

/// The partitions of a split, scanned one after another, emit exactly the tokens
/// of one scan over the whole of `data`.
pub proof fn lemma_partition_tokens(data: Seq<u8>, n: int, k: int)
    requires
        n >= 1,
        0 <= k <= n,
    ensures
        partition_tokens(data, n, k) == tokens(data, 0, boundary(data, n, k)),
    decreases k,
{
    lemma_boundaries(data, n);
    if k == 0 {
        assert(tokens(data, 0, 0) =~= Seq::empty());
    } else {
        lemma_partition_tokens(data, n, k - 1);
        crate::tokenizer::lemma_tokens_split(data, 0, boundary(data, n, k - 1), boundary(data, n, k));
    }
}

/// The first aligned position at or after `m`.
fn snap_exec(data: &[u8], m: usize) -> (r: usize)
    requires
        m <= data@.len(),
    ensures
        r == snap(data@, m as int),
{
    let mut p: usize = m;
    while p < data.len() && !(p == 0 || is_delimiter(data[p - 1]))
        invariant
            m <= p <= data@.len(),
            snap(data@, m as int) == snap(data@, p as int),
        decreases data@.len() - p,
    {
        p = p + 1;
    }
    p
}

/// Splits `data` into `workers` contiguous partitions that cover it exactly once,
/// each boundary moved forward from its equal-width cut to the next position just
/// after a delimiter (or to the end), so that no word is cut.
pub fn split(data: &[u8], workers: usize) -> (r: Vec<Partition>)
    requires
        workers >= 1,
    ensures
        r@.len() == workers,
        forall|i: int|
            0 <= i < workers ==> (#[trigger] r@[i]).0 == boundary(data@, workers as int, i) && r@[i].1
                == boundary(data@, workers as int, i + 1),
{
    let len: usize = data.len();
    let width: usize = len / workers;
    let mut r: Vec<Partition> = Vec::new();
    let mut start: usize = 0;
    let mut i: usize = 0;
    proof {
        lemma_boundaries(data@, workers as int);
    }
    while i < workers
        invariant
            i <= workers,
            width == len / workers,
            len == data@.len(),
            start == boundary(data@, workers as int, i as int),
            r@.len() == i,
            forall|k: int|
                0 <= k < i ==> (#[trigger] r@[k]).0 == boundary(data@, workers as int, k) && r@[k].1
                    == boundary(data@, workers as int, k + 1),
        decreases workers - i,
    {
        let end: usize;
        if i + 1 >= workers {
            end = len;
        } else {
            assert((i + 1) * width <= len) by (nonlinear_arith)
                requires
                    i + 1 < workers,
                    width == len / workers,
                    workers >= 1,
            ;
            let cut: usize = (i + 1) * width;
            end = snap_exec(data, cut);
        }
        r.push((start, end));
        start = end;
        i = i + 1;
    }
    r
}

} // verus!
