//! Order-preserving evaluation in contiguous chunks, one for each worker.
//!
//! Work is cut into chunks that follow one another; each chunk is evaluated on its own, and the
//! results are put together in order, so the outcome is that of a plain map whatever the number of
//! workers. [`par_map`] evaluates the chunks one after another. A caller with threads implements
//! [`Workers`]: each chunk of [`chunks`] goes to a thread that runs [`map_range`].

use vstd::prelude::*;

verus! {

/// Length of the chunks that `n` items are cut into for at most `workers` workers.
pub open spec fn chunk_len(n: nat, workers: nat) -> nat {
    if n % workers == 0 {
        n / workers
    } else {
        n / workers + 1
    }
}

/// Number of workers that `n` items are shared among.
pub open spec fn worker_count(n: nat, n_threads: nat) -> nat {
    if n_threads < 1 {
        1
    } else if n_threads > n {
        n
    } else {
        n_threads
    }
}

/// Where chunk `i` of `n` items starts, with chunks of length `len`.
pub open spec fn chunk_start(n: nat, len: nat, i: nat) -> nat {
    if i * len < n {
        i * len
    } else {
        n
    }
}

/// Whether ranges are the chunks of `n` items: chunk after chunk, none empty, up to the end.
pub open spec fn tile(ranges: Seq<(usize, usize)>, n: nat, len: nat) -> bool {
    &&& forall|i: int|
        0 <= i < ranges.len() ==> {
            &&& (#[trigger] ranges[i]).0 == chunk_start(n, len, i as nat)
            &&& ranges[i].1 == chunk_start(n, len, (i + 1) as nat)
            &&& ranges[i].0 < ranges[i].1
        }
    &&& chunk_start(n, len, ranges.len()) == n
}

/// The ranges that `n` items are cut into: no more than there are workers, each but the last as
/// long as the first.
pub fn chunks(n: usize, n_threads: usize) -> (r: Vec<(usize, usize)>)
    ensures
        n > 0 ==> r@.len() <= worker_count(n as nat, n_threads as nat),
        n > 0 ==> tile(
            r@,
            n as nat,
            chunk_len(n as nat, worker_count(n as nat, n_threads as nat)),
        ),
        n == 0 ==> r@.len() == 0,
{
    let mut out: Vec<(usize, usize)> = Vec::new();
    if n == 0 {
        return out;
    }
    let workers: usize = if n_threads < 1 {
        1
    } else if n_threads > n {
        n
    } else {
        n_threads
    };
    let whole: usize = n / workers;
    let rest: usize = n % workers;
    proof {
        vstd::arithmetic::div_mod::lemma_fundamental_div_mod(n as int, workers as int);
        assert(whole >= 1) by (nonlinear_arith)
            requires
                workers <= n,
                workers > 0,
                whole == n as int / workers as int,
        ;
        assert(rest != 0 ==> whole < n) by (nonlinear_arith)
            requires
                n == workers * whole + rest,
                workers > 0,
                whole >= 1,
                rest >= 0,
        ;
    }
    let chunk: usize = if rest == 0 {
        whole
    } else {
        whole + 1
    };
    proof {
        assert(workers * chunk >= n) by (nonlinear_arith)
            requires
                n == workers * whole + rest,
                chunk == whole && rest == 0 || chunk == whole + 1,
                rest < workers,
        ;
        assert(0 * chunk == 0);
    }
    let mut start: usize = 0;
    while start < n
        invariant
            start <= n,
            1 <= chunk <= n,
            workers * chunk >= n,
            start == chunk_start(n as nat, chunk as nat, out@.len()),
            out@.len() <= workers,
            forall|i: int|
                0 <= i < out@.len() ==> {
                    &&& (#[trigger] out@[i]).0 == chunk_start(n as nat, chunk as nat, i as nat)
                    &&& out@[i].1 == chunk_start(n as nat, chunk as nat, (i + 1) as nat)
                    &&& out@[i].0 < out@[i].1
                },
        decreases n - start,
    {
        let end: usize = if n - start > chunk {
            start + chunk
        } else {
            n
        };
        proof {
            let c = out@.len();
            assert(c < workers) by (nonlinear_arith)
                requires
                    c * chunk < n,
                    workers * chunk >= n,
                    chunk >= 1,
            ;
            assert((c + 1) * chunk == c * chunk + chunk) by (nonlinear_arith);
        }
        out.push((start, end));
        start = end;
    }
    out
}

/// Applies `f` to the items from `start` up to `end`.
pub fn map_range<T, R, F: Fn(&T) -> R>(items: &[T], start: usize, end: usize, f: &F) -> (r: Vec<R>)
    requires
        start <= end <= items@.len(),
        forall|i: int| start <= i < end ==> call_requires(*f, (&#[trigger] items@[i],)),
    ensures
        r@.len() == end - start,
        forall|i: int|
            0 <= i < r@.len() ==> call_ensures(*f, (&items@[start + i],), #[trigger] r@[i]),
{
    let mut r: Vec<R> = Vec::new();
    let mut i: usize = start;
    while i < end
        invariant
            start <= i <= end <= items@.len(),
            forall|i: int| start <= i < end ==> call_requires(*f, (&#[trigger] items@[i],)),
            r@.len() == i - start,
            forall|j: int|
                0 <= j < r@.len() ==> call_ensures(*f, (&items@[start + j],), #[trigger] r@[j]),
        decreases end - i,
    {
        let x = f(&items[i]);
        r.push(x);
        i += 1;
    }
    r
}

/// Applies `f` to every item, chunk by chunk, keeping the order of the items.
pub fn par_map<T, R, F: Fn(&T) -> R>(items: &[T], n_threads: usize, f: F) -> (r: Vec<R>)
    requires
        forall|i: int| 0 <= i < items@.len() ==> call_requires(f, (&#[trigger] items@[i],)),
    ensures
        r@.len() == items@.len(),
        forall|i: int|
            0 <= i < r@.len() ==> call_ensures(f, (&items@[i],), #[trigger] r@[i]),
{
    let n: usize = items.len();
    if n_threads <= 1 || n <= 1 {
        return map_range(items, 0, n, &f);
    }
    let ranges = chunks(n, n_threads);
    let ghost len = chunk_len(n as nat, worker_count(n as nat, n_threads as nat));
    let mut out: Vec<R> = Vec::new();
    let mut c: usize = 0;
    assert(0 * len == 0);
    while c < ranges.len()
        invariant
            c <= ranges@.len(),
            tile(ranges@, n as nat, len),
            n == items@.len(),
            n > 0,
            forall|i: int| 0 <= i < items@.len() ==> call_requires(f, (&#[trigger] items@[i],)),
            out@.len() == chunk_start(n as nat, len, c as nat),
            forall|i: int|
                0 <= i < out@.len() ==> call_ensures(f, (&items@[i],), #[trigger] out@[i]),
        decreases ranges@.len() - c,
    {
        let (start, end) = ranges[c];
        assert(ranges@[c as int].0 == start && ranges@[c as int].1 == end);
        let mut part = map_range(items, start, end, &f);
        let ghost before = out@;
        let ghost local = part@;
        out.append(&mut part);
        assert forall|i: int| 0 <= i < out@.len() implies call_ensures(
            f,
            (&items@[i],),
            #[trigger] out@[i],
        ) by {
            if i < before.len() {
                assert(out@[i] == before[i]);
            } else {
                assert(out@[i] == local[i - before.len()]);
                assert(start + (i - before.len()) == i);
            }
        }
        c += 1;
    }
    out
}

/// Something that applies a function to items, in its own way.
pub trait Workers {
    /// Applies `f` to every item, with at most `n_threads` workers, keeping the order of the items.
    fn map<T: Sync, R: Send, F: Fn(&T) -> R + Sync>(
        &self,
        items: &[T],
        n_threads: usize,
        f: F,
    ) -> (r: Vec<R>)
        requires
            forall|i: int| 0 <= i < items@.len() ==> call_requires(f, (&#[trigger] items@[i],)),
        ensures
            r@.len() == items@.len(),
            forall|i: int|
                0 <= i < r@.len() ==> call_ensures(f, (&items@[i],), #[trigger] r@[i]),
    ;
}

/// Evaluates one chunk after another.
pub struct InTurn;

impl Workers for InTurn {
    fn map<T: Sync, R: Send, F: Fn(&T) -> R + Sync>(
        &self,
        items: &[T],
        n_threads: usize,
        f: F,
    ) -> (r: Vec<R>) {
        par_map(items, n_threads, f)
    }
}

} // verus!
