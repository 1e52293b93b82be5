//! How items are shared among workers.

use crate::parallel;
use vstd::prelude::*;

verus! {

/// The chunks of some items follow one another from the first item to the last. All but the last
/// are equally long and the last is no longer. The length is the least with which a chunk for each
/// worker holds all items: one item where there are more workers than items, and all of them where
/// there is no worker to share with.
pub proof fn law_chunks(ranges: Seq<(usize, usize)>, n: nat, n_threads: nat)
    requires
        n > 0,
        ranges.len() > 0,
        parallel::tile(ranges, n, parallel::chunk_len(n, parallel::worker_count(n, n_threads))),
    ensures
        ranges[0].0 == 0,
        ranges.last().1 == n,
        forall|i: int| 0 < i < ranges.len() ==> (#[trigger] ranges[i]).0 == ranges[i - 1].1,
        forall|i: int|
            0 <= i < ranges.len() - 1 ==> (#[trigger] ranges[i]).1 - ranges[i].0
                == parallel::chunk_len(n, parallel::worker_count(n, n_threads)),
        ranges.last().1 - ranges.last().0 <= parallel::chunk_len(
            n,
            parallel::worker_count(n, n_threads),
        ),
        n_threads >= 1 && n_threads <= n ==> {
            let len = parallel::chunk_len(n, parallel::worker_count(n, n_threads));
            &&& n_threads * len >= n
            &&& n_threads * (len - 1) < n
        },
        n_threads > n ==> parallel::chunk_len(n, parallel::worker_count(n, n_threads)) == 1,
        n_threads == 0 ==> parallel::chunk_len(n, parallel::worker_count(n, n_threads)) == n,
{
    let w = parallel::worker_count(n, n_threads);
    let len = parallel::chunk_len(n, w);
    vstd::arithmetic::div_mod::lemma_fundamental_div_mod(n as int, w as int);
    let q = n as int / w as int;
    let rest = n as int % w as int;
    assert(w * len >= n && w * (len - 1) < n) by (nonlinear_arith)
        requires
            n == w * q + rest,
            0 <= rest < w,
            len == q && rest == 0 || len == q + 1 && rest > 0,
    ;
    assert(n_threads > n ==> len == 1) by (nonlinear_arith)
        requires
            w * len >= n,
            w * (len - 1) < n,
            n > 0,
            n_threads > n ==> w == n,
    ;
    assert(n_threads == 0 ==> w * len == len && w * (len - 1) == len - 1) by (nonlinear_arith)
        requires
            n_threads == 0 ==> w == 1,
    ;
    assert(0 * len == 0);
    assert(ranges[0].0 == parallel::chunk_start(n, len, 0));
    let last = ranges.len() - 1;
    assert(ranges[last].1 == parallel::chunk_start(n, len, (last + 1) as nat));
    assert forall|i: int| 0 <= i < ranges.len() - 1 implies (#[trigger] ranges[i]).1 - ranges[i].0
        == len by {
        assert(ranges[i + 1].0 == parallel::chunk_start(n, len, (i + 1) as nat));
        assert((i + 1) * len == i * len + len) by (nonlinear_arith);
    }
    assert((last + 1) * len == last * len + len) by (nonlinear_arith);
    assert(ranges[last].0 == parallel::chunk_start(n, len, last as nat));
}

} // verus!
