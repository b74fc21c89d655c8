//! Delivery of query results to a callback in batches of bounded size.
use vstd::arithmetic::div_mod::{lemma_fundamental_div_mod, lemma_fundamental_div_mod_converse};
use vstd::prelude::*;

verus! {

/// What a batch callback asks for next.
#[derive(Clone, Copy, Debug, PartialEq, Eq, Structural)]
pub enum Flow {
    Continue,
    Stop,
}

/// Why an iteration ended early.
#[derive(Clone, Copy, Debug, PartialEq, Eq, Structural)]
pub enum IterError {
    /// The callback asked to stop.
    Cancelled,
}

/// The number of batches of at most `size` items that `len` items make.
pub open spec fn num_batches(len: nat, size: nat) -> nat {
    if size == 0 {
        0
    } else {
        ((len + size - 1) / size as int) as nat
    }
}

/// The items of batch `i`: `size` consecutive items, fewer in the last batch.
pub open spec fn batch_spec<T>(points: Seq<T>, size: nat, i: nat) -> Seq<T> {
    let start = i * size;
    let end = if (i + 1) * size <= points.len() {
        (i + 1) * size
    } else {
        points.len()
    };
    points.subrange(start as int, end as int)
}

/// `func` was handed batch `i` of `points` and answered `flow`.
pub open spec fn answered<T, F: Fn(&Vec<T>) -> Flow>(
    func: F,
    points: Seq<T>,
    size: nat,
    i: nat,
    flow: Flow,
) -> bool {
    exists|b: &Vec<T>| b@ == batch_spec(points, size, i) && #[trigger] func.ensures((b,), flow)
}

/// Hands `points` to `func` in batches of `batch_size`, in order, the last batch holding the
/// remainder. Stops at the first batch for which `func` answers `Stop` and reports
/// `Cancelled`; no further batch is handed over. No batch is handed over for no points.
pub fn try_for_each_batch<T: Copy, F: Fn(&Vec<T>) -> Flow>(
    points: &Vec<T>,
    batch_size: usize,
    func: F,
) -> (r: Result<(), IterError>)
    requires
        batch_size > 0,
        forall|b: &Vec<T>| #[trigger] func.requires((b,)),
    ensures
        match r {
            Ok(()) => forall|i: nat|
                i < num_batches(points@.len(), batch_size as nat) ==> #[trigger] answered(
                    func,
                    points@,
                    batch_size as nat,
                    i,
                    Flow::Continue,
                ),
            Err(e) => e == IterError::Cancelled && exists|k: nat|
                {
                    &&& k < num_batches(points@.len(), batch_size as nat)
                    &&& forall|i: nat|
                        i < k ==> #[trigger] answered(
                            func,
                            points@,
                            batch_size as nat,
                            i,
                            Flow::Continue,
                        )
                    &&& answered(func, points@, batch_size as nat, k, Flow::Stop)
                },
        },
{
    let n = points.len();
    let mut start: usize = 0;
    let ghost mut k: nat = 0;
    proof {
        if n > 0 {
            lemma_batch_count(n as nat, batch_size as nat, 0);
        } else {
            lemma_no_batches_for_no_points(batch_size as nat);
        }
    }
    while start < n
        invariant
            n == points@.len(),
            start <= n,
            start < n ==> start == k * batch_size && k < num_batches(n as nat, batch_size as nat),
            start == n ==> k == num_batches(n as nat, batch_size as nat),
            batch_size > 0,
            forall|b: &Vec<T>| #[trigger] func.requires((b,)),
            forall|i: nat|
                i < k ==> #[trigger] answered(func, points@, batch_size as nat, i, Flow::Continue),
        decreases n - start,
    {
        let end: usize = if n - start > batch_size {
            start + batch_size
        } else {
            n
        };
        let mut batch: Vec<T> = Vec::new();
        let mut j: usize = start;
        while j < end
            invariant
                start <= j <= end <= n,
                n == points@.len(),
                batch@ == points@.subrange(start as int, j as int),
            decreases end - j,
        {
            batch.push(points[j]);
            j = j + 1;
        }
        proof {
            assert((k + 1) * batch_size == k * batch_size + batch_size) by (nonlinear_arith);
            assert(batch@ == batch_spec(points@, batch_size as nat, k));
            lemma_batch_count(n as nat, batch_size as nat, k);
        }
        let flow = func(&batch);
        if let Flow::Stop = flow {
            assert(answered(func, points@, batch_size as nat, k, Flow::Stop));
            return Err(IterError::Cancelled);
        }
        assert(answered(func, points@, batch_size as nat, k, Flow::Continue));
        start = end;
        proof {
            k = k + 1;
        }
    }
    Ok(())
}

/// Batch `k` starts at `k * size`; it is the last one exactly when it reaches the end.
proof fn lemma_batch_count(len: nat, size: nat, k: nat)
    requires
        size > 0,
        k * size < len,
    ensures
        k < num_batches(len, size),
        (k + 1) * size >= len ==> k + 1 == num_batches(len, size),
        (k + 1) * size < len ==> k + 1 < num_batches(len, size),
{
    let m = num_batches(len, size);
    assert(m == (len + size - 1) / size as int);
    assert(k < m) by (nonlinear_arith)
        requires
            k * size < len,
            m == (len + size - 1) / size as int,
            size > 0,
    ;
    if (k + 1) * size >= len {
        assert(k + 1 == m) by (nonlinear_arith)
            requires
                k * size < len,
                (k + 1) * size >= len,
                m == (len + size - 1) / size as int,
                size > 0,
        ;
    } else {
        assert(k + 1 < m) by (nonlinear_arith)
            requires
                (k + 1) * size < len,
                m == (len + size - 1) / size as int,
                size > 0,
        ;
    }
}

/// The items of batches `0..k`, one after the other.
pub open spec fn first_batches<T>(points: Seq<T>, size: nat, k: nat) -> Seq<T>
    decreases k,
{
    if k == 0 {
        Seq::empty()
    } else {
        first_batches(points, size, (k - 1) as nat) + batch_spec(points, size, (k - 1) as nat)
    }
}

/// The first `k` batches hand over exactly the first `min(k * size, len)` items, in order. So an
/// iteration that the callback stops at batch `k` has handed over the items of `k + 1` batches
/// and no other.
pub proof fn lemma_first_batches<T>(points: Seq<T>, size: nat, k: nat)
    requires
        size > 0,
        k <= num_batches(points.len(), size),
    ensures
        first_batches(points, size, k) == points.take(
            if k * size <= points.len() {
                (k * size) as int
            } else {
                points.len() as int
            },
        ),
    decreases k,
{
    if k > 0 {
        let len = points.len();
        let m = num_batches(len, size);
        lemma_fundamental_div_mod((len + size - 1) as int, size as int);
        assert((k - 1) * size < len) by (nonlinear_arith)
            requires
                k <= m,
                k >= 1,
                m == (len + size - 1) / size as int,
                (len + size - 1) == size * ((len + size - 1) / size as int) + (len + size - 1) % (
                size as int),
                0 <= (len + size - 1) % (size as int),
                size > 0,
        ;
        assert(k * size == (k - 1) * size + size) by (nonlinear_arith);
        lemma_first_batches(points, size, (k - 1) as nat);
        assert(first_batches(points, size, k) =~= points.take(
            if k * size <= points.len() {
                (k * size) as int
            } else {
                points.len() as int
            },
        ));
    } else {
        assert(k * size == 0) by (nonlinear_arith)
            requires
                k == 0,
        ;
        assert(first_batches(points, size, 0) =~= points.take(0));
    }
}

/// An empty sequence makes no batch, so a callback is never invoked for it.
pub proof fn lemma_no_batches_for_no_points(size: nat)
    ensures
        num_batches(0, size) == 0,
{
    if size > 0 {
        lemma_fundamental_div_mod_converse((size - 1) as int, size as int, 0, (size - 1) as int);
    }
}

} // verus!
