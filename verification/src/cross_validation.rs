//! Cross-validation: fold assignment, and scoring the splits of one feature across folds.

use crate::criterion::Criterion;
use crate::data::{Column, SampleId};
use crate::encoder;
use crate::float::Float;
use crate::sorting;
use crate::statistics;
use vstd::prelude::*;
use vstd::seq_lib::*;

verus! {

/// A small self-contained pseudo-random generator for reproducible shuffling.
#[derive(Clone, Debug)]
pub struct SplitMix64 {
    state: u64,
}

/// The generator state after one draw.
pub open spec fn stepped(state: u64) -> u64 {
    state.wrapping_add(0x9E37_79B9_7F4A_7C15)
}

/// The value drawn on reaching a generator state.
pub open spec fn scrambled(state: u64) -> u64 {
    let a = (state ^ (state >> 30)).wrapping_mul(0xBF58_476D_1CE4_E5B9);
    let b = (a ^ (a >> 27)).wrapping_mul(0x94D0_49BB_1331_11EB);
    b ^ (b >> 31)
}

impl SplitMix64 {
    /// The generator state.
    pub closed spec fn position(&self) -> u64 {
        self.state
    }

    /// Seeds the generator.
    pub fn new(seed: u64) -> (r: SplitMix64)
        ensures
            r.position() == seed,
    {
        SplitMix64 { state: seed }
    }

    /// The next pseudo-random value.
    pub fn next_u64(&mut self) -> (r: u64)
        ensures
            final(self).position() == stepped(old(self).position()),
            r == scrambled(final(self).position()),
    {
        self.state = self.state.wrapping_add(0x9E37_79B9_7F4A_7C15);
        let mut z: u64 = self.state;
        z = (z ^ (z >> 30)).wrapping_mul(0xBF58_476D_1CE4_E5B9);
        z = (z ^ (z >> 27)).wrapping_mul(0x94D0_49BB_1331_11EB);
        z ^ (z >> 31)
    }

    /// A pseudo-random value below `bound`.
    pub fn below(&mut self, bound: u64) -> (r: u64)
        requires
            bound > 0,
        ensures
            final(self).position() == stepped(old(self).position()),
            r == scrambled(final(self).position()) % bound,
            r < bound,
    {
        self.next_u64() % bound
    }
}

/// A train and validation split of sample indices.
#[derive(Clone, Debug)]
pub struct Fold {
    /// Training sample indices.
    pub train: Vec<usize>,
    /// Validation sample indices.
    pub val: Vec<usize>,
}

/// The indices of a fold.
#[verifier::ext_equal]
pub struct FoldView {
    pub train: Seq<usize>,
    pub val: Seq<usize>,
}

impl View for Fold {
    type V = FoldView;

    open spec fn view(&self) -> FoldView {
        FoldView { train: self.train@, val: self.val@ }
    }
}

/// The indices of each fold.
pub open spec fn fold_views(folds: Seq<Fold>) -> Seq<FoldView> {
    Seq::new(folds.len(), |i: int| folds[i]@)
}

/// K-fold cross-validation settings.
#[derive(Clone, Debug)]
pub struct KFold {
    /// Number of folds asked for; at least two and at most one per sample are used.
    pub k: usize,
    /// Seed for shuffling.
    pub seed: u64,
    /// Whether to shuffle before cutting into folds.
    pub shuffle: bool,
}

/// `s` with the elements at `i` and `j` exchanged.
pub open spec fn exchanged<T>(s: Seq<T>, i: int, j: int) -> Seq<T> {
    s.update(i, s[j]).update(j, s[i])
}

/// `s` after exchanging each position from `i` down to one with a position drawn at or below it.
pub open spec fn shuffled(s: Seq<usize>, state: u64, i: nat) -> Seq<usize>
    decreases i,
{
    if i == 0 {
        s
    } else {
        let next = stepped(state);
        let j = (scrambled(next) % (i + 1) as u64) as int;
        shuffled(exchanged(s, i as int, j), next, (i - 1) as nat)
    }
}

/// Where fold `f` of `k` starts among `n` samples: the first `n % k` folds hold one more.
pub open spec fn fold_start(n: nat, k: nat, f: nat) -> nat {
    f * (n / k) + if f < n % k {
        f
    } else {
        n % k
    }
}

/// Fold `f` of `k` over samples in the given order.
pub open spec fn fold_at(order: Seq<usize>, k: nat, f: nat) -> FoldView {
    let a = fold_start(order.len(), k, f) as int;
    let b = fold_start(order.len(), k, f + 1) as int;
    FoldView {
        train: order.subrange(0, a) + order.subrange(b, order.len() as int),
        val: order.subrange(a, b),
    }
}

/// Whether position `p` validates in fold `f`.
pub open spec fn fold_holds(n: nat, k: nat, f: nat, p: nat) -> bool {
    f < k && fold_start(n, k, f) <= p < fold_start(n, k, f + 1)
}

/// The validation fold of position `p`.
pub open spec fn fold_of(n: nat, k: nat, p: nat) -> nat {
    choose|f: nat| fold_holds(n, k, f, p)
}

/// The validation fold of each position.
pub open spec fn fold_ids(n: nat, k: nat) -> Seq<u8> {
    Seq::new(n, |p: int| fold_of(n, k, p as nat) as u8)
}

impl KFold {
    /// Number of folds used for `n` samples.
    pub open spec fn fold_count(&self, n: nat) -> nat {
        let k = if self.k < 2 {
            2
        } else {
            self.k as nat
        };
        if k > n {
            n
        } else {
            k
        }
    }

    /// Number of folds used for `n` samples where a fold id has one byte.
    pub open spec fn compact_count(&self, n: nat) -> nat {
        if self.fold_count(n) > 255 {
            255
        } else {
            self.fold_count(n)
        }
    }

    /// The samples in the order in which they are cut into folds.
    pub open spec fn arranged(&self, indices: Seq<usize>) -> Seq<usize> {
        if self.shuffle && indices.len() > 0 {
            shuffled(
                indices,
                self.seed ^ (indices.len() as u64).wrapping_mul(0x9E37_79B9_7F4A_7C15),
                (indices.len() - 1) as nat,
            )
        } else {
            indices
        }
    }

    /// The folds over the given samples.
    pub open spec fn folds_of(&self, indices: Seq<usize>) -> Seq<FoldView> {
        let k = self.fold_count(indices.len());
        Seq::new(k, |f: int| fold_at(self.arranged(indices), k, f as nat))
    }

    /// Shuffling settings with `k` folds and the given seed.
    pub fn new(k: usize, seed: u64) -> (r: KFold)
        ensures
            r.k == k,
            r.seed == seed,
            r.shuffle,
    {
        KFold { k, seed, shuffle: true }
    }

    fn arrange(&self, indices: &[usize]) -> (r: Vec<usize>)
        ensures
            r@ == self.arranged(indices@),
            r@.len() == indices@.len(),
    {
        let mut idx: Vec<usize> = Vec::new();
        let mut c: usize = 0;
        while c < indices.len()
            invariant
                c <= indices@.len(),
                idx@ == indices@.take(c as int),
            decreases indices@.len() - c,
        {
            idx.push(indices[c]);
            c += 1;
        }
        assert(indices@.take(c as int) =~= indices@);
        if !self.shuffle || idx.len() == 0 {
            return idx;
        }
        let n: usize = idx.len();
        let mut rng = SplitMix64::new(
            self.seed ^ (n as u64).wrapping_mul(0x9E37_79B9_7F4A_7C15),
        );
        let mut i: usize = n - 1;
        let ghost goal = self.arranged(indices@);
        while i > 0
            invariant
                i < n,
                n == idx@.len(),
                n == indices@.len(),
                shuffled(idx@, rng.position(), i as nat) == goal,
            decreases i,
        {
            let j: usize = rng.below((i as u64) + 1) as usize;
            let a: usize = idx[i];
            let b: usize = idx[j];
            let ghost before = idx@;
            idx.set(i, b);
            idx.set(j, a);
            assert(idx@ =~= exchanged(before, i as int, j as int));
            i -= 1;
        }
        idx
    }

    /// Cuts the given samples into folds; the same input always gives the same folds.
    pub fn folds(&self, indices: &[usize]) -> (r: Vec<Fold>)
        ensures
            fold_views(r@) == self.folds_of(indices@),
    {
        let n: usize = indices.len();
        let mut folds: Vec<Fold> = Vec::new();
        if n == 0 {
            assert(fold_views(folds@) =~= self.folds_of(indices@));
            return folds;
        }
        let asked: usize = if self.k < 2 {
            2
        } else {
            self.k
        };
        let k: usize = if asked > n {
            n
        } else {
            asked
        };
        let idx = self.arrange(indices);
        let base: usize = n / k;
        let rem: usize = n % k;
        let mut start: usize = 0;
        let mut f: usize = 0;
        while f < k
            invariant
                f <= k,
                0 < k <= n,
                k == self.fold_count(n as nat),
                n == idx@.len(),
                n == indices@.len(),
                idx@ == self.arranged(indices@),
                base == n / k,
                rem == n % k,
                start == fold_start(n as nat, k as nat, f as nat),
                folds@.len() == f,
                forall|g: int|
                    0 <= g < f ==> #[trigger] folds@[g]@ == fold_at(idx@, k as nat, g as nat),
            decreases k - f,
        {
            let extra: usize = if f < rem {
                1
            } else {
                0
            };
            proof {
                lemma_fold_start(n as nat, k as nat, f as nat);
            }
            let size: usize = base + extra;
            let end: usize = start + size;
            let val = copied(&idx, start, end);
            let mut train = copied(&idx, 0, start);
            let mut rest = copied(&idx, end, n);
            train.append(&mut rest);
            let fold = Fold { train, val };
            assert(fold@ =~= fold_at(idx@, k as nat, f as nat));
            folds.push(fold);
            start = end;
            f += 1;
        }
        assert(fold_views(folds@) =~= self.folds_of(indices@));
        folds
    }

    /// The samples in fold order, the validation fold of each, and the number of folds.
    pub fn assign(&self, indices: &[usize]) -> (r: (Vec<SampleId>, Vec<u8>, usize))
        ensures
            r.2 == self.compact_count(indices@.len()),
            r.0@ == Seq::new(
                indices@.len(),
                |p: int| self.arranged(indices@)[p] as SampleId,
            ),
            r.1@ == fold_ids(indices@.len(), r.2 as nat),
            forall|p: int|
                0 <= p < indices@.len() ==> fold_holds(
                    indices@.len(),
                    r.2 as nat,
                    (#[trigger] r.1@[p]) as nat,
                    p as nat,
                ),
    {
        let n: usize = indices.len();
        let mut order: Vec<SampleId> = Vec::new();
        let mut val_fold: Vec<u8> = Vec::new();
        if n == 0 {
            assert(order@ =~= Seq::new(
                indices@.len(),
                |p: int| self.arranged(indices@)[p] as SampleId,
            ));
            return (order, val_fold, 0);
        }
        let asked: usize = if self.k < 2 {
            2
        } else {
            self.k
        };
        let clamped: usize = if asked > n {
            n
        } else {
            asked
        };
        let k: usize = if clamped > 255 {
            255
        } else {
            clamped
        };
        let idx = self.arrange(indices);
        let base: usize = n / k;
        let rem: usize = n % k;
        let mut pos: usize = 0;
        let mut f: usize = 0;
        while f < k
            invariant
                f <= k,
                0 < k <= n,
                k <= 255,
                n == idx@.len(),
                base == n / k,
                rem == n % k,
                pos == fold_start(n as nat, k as nat, f as nat),
                order@.len() == pos,
                val_fold@.len() == pos,
                forall|p: int| 0 <= p < pos ==> #[trigger] order@[p] == idx@[p] as SampleId,
                forall|p: int|
                    0 <= p < pos ==> fold_holds(
                        n as nat,
                        k as nat,
                        (#[trigger] val_fold@[p]) as nat,
                        p as nat,
                    ),
            decreases k - f,
        {
            let extra: usize = if f < rem {
                1
            } else {
                0
            };
            proof {
                lemma_fold_start(n as nat, k as nat, f as nat);
            }
            let end: usize = pos + (base + extra);
            let ghost start = pos;
            while pos < end
                invariant
                    start <= pos <= end <= n,
                    f < k <= 255,
                    n == idx@.len(),
                    start == fold_start(n as nat, k as nat, f as nat),
                    end == fold_start(n as nat, k as nat, (f + 1) as nat),
                    order@.len() == pos,
                    val_fold@.len() == pos,
                    forall|p: int| 0 <= p < pos ==> #[trigger] order@[p] == idx@[p] as SampleId,
                    forall|p: int|
                        0 <= p < pos ==> fold_holds(
                            n as nat,
                            k as nat,
                            (#[trigger] val_fold@[p]) as nat,
                            p as nat,
                        ),
                decreases end - pos,
            {
                order.push(idx[pos] as SampleId);
                val_fold.push(f as u8);
                pos += 1;
            }
            f += 1;
        }
        proof {
            lemma_fold_ends(n as nat, k as nat);
            assert forall|p: int| 0 <= p < n implies val_fold@[p] == fold_ids(
                n as nat,
                k as nat,
            )[p] by {
                assert(fold_holds(n as nat, k as nat, val_fold@[p] as nat, p as nat));
                law_fold_is_unique(
                    n as nat,
                    k as nat,
                    fold_of(n as nat, k as nat, p as nat),
                    val_fold@[p] as nat,
                    p as nat,
                );
            }
            assert(val_fold@ =~= fold_ids(n as nat, k as nat));
        }
        assert(order@ =~= Seq::new(
            indices@.len(),
            |p: int| self.arranged(indices@)[p] as SampleId,
        ));
        (order, val_fold, k)
    }
}

/// Folds follow one another, and each holds `n / k` samples or one more.
pub(crate) proof fn lemma_fold_start(n: nat, k: nat, f: nat)
    requires
        0 < k <= n,
        f < k,
    ensures
        fold_start(n, k, f + 1) == fold_start(n, k, f) + n / k + if f < n % k {
            1nat
        } else {
            0
        },
        fold_start(n, k, f + 1) <= n,
{
    let b = n / k;
    let r = n % k;
    vstd::arithmetic::div_mod::lemma_fundamental_div_mod(n as int, k as int);
    assert((f + 1) * b == f * b + b) by (nonlinear_arith);
    assert((f + 1) * b <= k * b) by (nonlinear_arith)
        requires
            f < k,
    ;
}

/// The range of a fold lies within the samples.
pub(crate) proof fn lemma_fold_range(n: nat, k: nat, f: nat)
    requires
        0 < k <= n,
        f < k,
    ensures
        fold_start(n, k, f) <= fold_start(n, k, f + 1) <= n,
{
    lemma_fold_start(n, k, f);
}

/// The folds start at the first sample and end at the last.
proof fn lemma_fold_ends(n: nat, k: nat)
    requires
        0 < k <= n,
    ensures
        fold_start(n, k, 0) == 0,
        fold_start(n, k, k) == n,
{
    vstd::arithmetic::div_mod::lemma_fundamental_div_mod(n as int, k as int);
    assert(0 * (n / k) == 0);
}

proof fn lemma_fold_start_order(n: nat, k: nat, f: nat, g: nat)
    requires
        0 < k <= n,
        f <= g <= k,
    ensures
        fold_start(n, k, f) <= fold_start(n, k, g) <= n,
    decreases g - f,
{
    if f < g {
        lemma_fold_start(n, k, (g - 1) as nat);
        lemma_fold_start_order(n, k, f, (g - 1) as nat);
    } else if f < k {
        lemma_fold_start(n, k, f);
    } else {
        lemma_fold_ends(n, k);
    }
}

/// A position validates in one fold only.
pub proof fn law_fold_is_unique(n: nat, k: nat, f: nat, g: nat, p: nat)
    requires
        0 < k <= n,
        fold_holds(n, k, f, p),
        fold_holds(n, k, g, p),
    ensures
        f == g,
{
    if f < g {
        lemma_fold_start_order(n, k, f + 1, g);
    }
    if g < f {
        lemma_fold_start_order(n, k, g + 1, f);
    }
}

/// Every position validates in some fold.
pub proof fn law_fold_exists(n: nat, k: nat, p: nat) -> (f: nat)
    requires
        0 < k <= n,
        p < n,
    ensures
        fold_holds(n, k, f, p),
{
    lemma_fold_ends(n, k);
    lemma_fold_below(n, k, k, p)
}

proof fn lemma_fold_below(n: nat, k: nat, g: nat, p: nat) -> (f: nat)
    requires
        0 < k <= n,
        g <= k,
        p < fold_start(n, k, g),
    ensures
        fold_holds(n, k, f, p),
    decreases g,
{
    if g == 0 {
        lemma_fold_ends(n, k);
        0
    } else if p < fold_start(n, k, (g - 1) as nat) {
        lemma_fold_below(n, k, (g - 1) as nat, p)
    } else {
        (g - 1) as nat
    }
}

/// Shuffling keeps the samples.
pub proof fn law_shuffle_permutes(s: Seq<usize>, state: u64, i: nat)
    requires
        i < s.len() <= u64::MAX,
    ensures
        shuffled(s, state, i).to_multiset() == s.to_multiset(),
        shuffled(s, state, i).len() == s.len(),
    decreases i,
{
    if i > 0 {
        let next = stepped(state);
        let j = (scrambled(next) % (i + 1) as u64) as int;
        lemma_exchange_permutes(s, i as int, j);
        law_shuffle_permutes(exchanged(s, i as int, j), next, (i - 1) as nat);
    }
}

/// Exchanging two elements keeps the elements.
pub proof fn lemma_exchange_permutes<T>(s: Seq<T>, i: int, j: int)
    requires
        0 <= i < s.len(),
        0 <= j < s.len(),
    ensures
        exchanged(s, i, j).to_multiset() == s.to_multiset(),
        exchanged(s, i, j).len() == s.len(),
{
    broadcast use group_to_multiset_ensures;

    let t = s.update(i, s[j]);
    assert(s.contains(s[i]) && s.contains(s[j]));
    assert(t.to_multiset() =~= s.to_multiset().insert(s[j]).remove(s[i]));
    assert(exchanged(s, i, j).to_multiset() =~= t.to_multiset().insert(s[i]).remove(t[j]));
    assert(exchanged(s, i, j).to_multiset() =~= s.to_multiset());
}

/// Arranging samples for folds keeps the samples.
pub proof fn law_arranged_permutes(kf: KFold, indices: Seq<usize>)
    requires
        indices.len() <= u64::MAX,
    ensures
        kf.arranged(indices).to_multiset() == indices.to_multiset(),
        kf.arranged(indices).len() == indices.len(),
{
    if kf.shuffle && indices.len() > 0 {
        law_shuffle_permutes(
            indices,
            kf.seed ^ (indices.len() as u64).wrapping_mul(0x9E37_79B9_7F4A_7C15),
            (indices.len() - 1) as nat,
        );
    }
}

/// The validation samples of the folds, one fold after another.
pub open spec fn joined(folds: Seq<FoldView>) -> Seq<usize>
    decreases folds.len(),
{
    if folds.len() == 0 {
        Seq::empty()
    } else {
        joined(folds.drop_last()) + folds.last().val
    }
}

proof fn lemma_joined(order: Seq<usize>, k: nat, f: nat)
    requires
        0 < k <= order.len(),
        f <= k,
    ensures
        joined(Seq::new(f, |g: int| fold_at(order, k, g as nat))) == order.subrange(
            0,
            fold_start(order.len(), k, f) as int,
        ),
    decreases f,
{
    let n = order.len();
    let fs = Seq::new(f, |g: int| fold_at(order, k, g as nat));
    if f == 0 {
        lemma_fold_ends(n, k);
        assert(joined(fs) =~= order.subrange(0, 0));
    } else {
        let e = (f - 1) as nat;
        lemma_joined(order, k, e);
        lemma_fold_start(n, k, e);
        assert(fs.drop_last() =~= Seq::new(e, |g: int| fold_at(order, k, g as nat)));
        assert(joined(fs) =~= order.subrange(0, fold_start(n, k, f) as int));
    }
}

/// The folds cover the samples: there are between two and one per sample of them (unless there
/// is a single sample), every sample validates exactly once, every fold trains on all samples that
/// it does not validate, and fold sizes differ by at most one.
pub proof fn law_folds_cover(kf: KFold, indices: Seq<usize>)
    requires
        indices.len() <= u64::MAX,
    ensures
        ({
            let folds = kf.folds_of(indices);
            let n = indices.len();
            &&& folds.len() == kf.fold_count(n)
            &&& n >= 2 ==> 2 <= folds.len() <= n
            &&& joined(folds) == kf.arranged(indices)
            &&& joined(folds).to_multiset() == indices.to_multiset()
            &&& forall|f: int|
                #![trigger folds[f]]
                0 <= f < folds.len() ==> {
                    &&& folds[f].train.to_multiset().add(folds[f].val.to_multiset())
                        == indices.to_multiset()
                    &&& folds[f].val.len() == n / folds.len() || folds[f].val.len() == n
                        / folds.len() + 1
                    &&& indices.no_duplicates() ==> forall|x: usize|
                        folds[f].train.contains(x) ==> !(#[trigger] folds[f].val.contains(x))
                }
        }),
{
    let folds = kf.folds_of(indices);
    let n = indices.len();
    let k = kf.fold_count(n);
    let order = kf.arranged(indices);
    law_arranged_permutes(kf, indices);
    if n > 0 {
        lemma_joined(order, k, k);
        lemma_fold_ends(n, k);
        assert(Seq::new(k, |g: int| fold_at(order, k, g as nat)) =~= folds);
        assert(order.subrange(0, n as int) =~= order);
        assert forall|f: int| #![trigger folds[f]] 0 <= f < folds.len() implies {
            &&& folds[f].train.to_multiset().add(folds[f].val.to_multiset())
                == indices.to_multiset()
            &&& folds[f].val.len() == n / folds.len() || folds[f].val.len() == n / folds.len() + 1
            &&& indices.no_duplicates() ==> forall|x: usize|
                folds[f].train.contains(x) ==> !(#[trigger] folds[f].val.contains(x))
        } by {
            lemma_fold_start(n, k, f as nat);
            let a = fold_start(n, k, f as nat) as int;
            let b = fold_start(n, k, (f + 1) as nat) as int;
            let head = order.subrange(0, a);
            let mid = order.subrange(a, b);
            let tail = order.subrange(b, n as int);
            assert(order =~= (head + mid) + tail);
            vstd::seq_lib::lemma_multiset_commutative(head, mid);
            vstd::seq_lib::lemma_multiset_commutative(head + mid, tail);
            vstd::seq_lib::lemma_multiset_commutative(head, tail);
            assert(folds[f].train.to_multiset().add(folds[f].val.to_multiset())
                =~= order.to_multiset());
            if indices.no_duplicates() {
                assert forall|x: usize| folds[f].train.contains(x) implies !(
                #[trigger] folds[f].val.contains(x)) by {
                    broadcast use group_to_multiset_ensures;

                    indices.lemma_multiset_has_no_duplicates();
                    if folds[f].val.contains(x) {
                        assert(folds[f].train.to_multiset().count(x) >= 1);
                        assert(folds[f].val.to_multiset().count(x) >= 1);
                        assert(indices.to_multiset().count(x) >= 2);
                        assert(indices.to_multiset().contains(x));
                    }
                }
            }
        }
    } else {
        assert(joined(folds) =~= order);
    }
}

/// The compact assignment agrees with the folds as long as a byte can number them: position `p`
/// stands in the validation samples of its fold.
pub proof fn law_assignment_agrees(kf: KFold, indices: Seq<usize>, p: nat)
    requires
        p < indices.len() <= u64::MAX,
        kf.fold_count(indices.len()) <= 255,
    ensures
        ({
            let n = indices.len();
            let k = kf.compact_count(n);
            let f = fold_ids(n, k)[p as int] as nat;
            let fold = kf.folds_of(indices)[f as int];
            &&& f < kf.folds_of(indices).len()
            &&& fold_start(n, k, f) <= p < fold_start(n, k, f) + fold.val.len()
            &&& fold.val[p - fold_start(n, k, f)] == kf.arranged(indices)[p as int]
        }),
{
    let n = indices.len();
    let k = kf.compact_count(n);
    let g = law_fold_exists(n, k, p);
    let f = fold_of(n, k, p);
    law_fold_is_unique(n, k, f, g, p);
    law_arranged_permutes(kf, indices);
    lemma_fold_start(n, k, f);
}

/// The elements from `lo` up to `hi`.
fn copied(v: &Vec<usize>, lo: usize, hi: usize) -> (r: Vec<usize>)
    requires
        lo <= hi <= v@.len(),
    ensures
        r@ == v@.subrange(lo as int, hi as int),
{
    let mut r: Vec<usize> = Vec::new();
    let mut i: usize = lo;
    while i < hi
        invariant
            lo <= i <= hi <= v@.len(),
            r@ == v@.subrange(lo as int, i as int),
        decreases hi - i,
    {
        r.push(v[i]);
        assert(v@.subrange(lo as int, i + 1) =~= v@.subrange(lo as int, i as int).push(
            v@[i as int],
        ));
        i += 1;
    }
    r
}

/// Per-fold score summary of one candidate split.
#[derive(Clone, Debug)]
pub struct FoldStats {
    /// Score of each fold in which the split was valid.
    pub scores: Vec<Float>,
    /// Mean of the scores; negative infinity when there are none.
    pub mean: Float,
    /// Median of the scores; negative infinity when there are none.
    pub median: Float,
    /// Population standard deviation of the scores; zero when there are none.
    pub std: Float,
    /// Number of folds in which the split was valid.
    pub n_success: usize,
    /// Number of folds tried.
    pub n_total: usize,
}

/// The contents of a score summary.
#[verifier::ext_equal]
pub struct StatsView {
    pub scores: Seq<Float>,
    pub mean: Float,
    pub median: Float,
    pub std: Float,
    pub n_success: nat,
    pub n_total: nat,
}

impl View for FoldStats {
    type V = StatsView;

    open spec fn view(&self) -> StatsView {
        StatsView {
            scores: self.scores@,
            mean: self.mean,
            median: self.median,
            std: self.std,
            n_success: self.n_success as nat,
            n_total: self.n_total as nat,
        }
    }
}

/// The contents of each summary.
pub open spec fn stats_views(stats: Seq<FoldStats>) -> Seq<StatsView> {
    Seq::new(stats.len(), |i: int| stats[i]@)
}

/// The summary of the given scores.
pub open spec fn summary(scores: Seq<Float>, n_total: nat) -> StatsView {
    if scores.len() == 0 {
        StatsView {
            scores,
            mean: Float::neg_infinity(),
            median: Float::neg_infinity(),
            std: Float::zero(),
            n_success: 0,
            n_total,
        }
    } else {
        let mean = statistics::mean_of(scores);
        StatsView {
            scores,
            mean,
            median: statistics::middle_of(sorting::in_order(scores)),
            std: Float::root_of(
                statistics::mean_of(statistics::squared_distances(scores, mean)),
            ),
            n_success: scores.len(),
            n_total,
        }
    }
}

impl FoldStats {
    /// Summarises the scores of the folds in which a split was valid.
    pub fn from_scores(scores: Vec<Float>, n_total: usize) -> (r: FoldStats)
        ensures
            r@ == summary(scores@, n_total as nat),
    {
        let n: usize = scores.len();
        if n == 0 {
            return FoldStats {
                scores,
                mean: Float::neg_infinity(),
                median: Float::neg_infinity(),
                std: Float::zero(),
                n_success: 0,
                n_total,
            };
        }
        let mean = statistics::mean(scores.as_slice());
        let var = statistics::sum_squared_distances(scores.as_slice(), mean).over(
            statistics::count(n),
        );
        let std = var.sqrt();
        let sorted = sorting::sorted(scores.as_slice());
        proof {
            sorting::law_in_order(scores@);
        }
        let median = statistics::middle(sorted.as_slice());
        FoldStats { scores, mean, median, std, n_success: n, n_total }
    }
}

/// The elements of `s` at the given indices.
pub open spec fn pick<T>(s: Seq<T>, indices: Seq<usize>) -> Seq<T> {
    Seq::new(indices.len(), |i: int| s[indices[i] as int])
}

/// Whether every index is below `n`.
pub open spec fn all_below(indices: Seq<usize>, n: nat) -> bool {
    forall|i: int| 0 <= i < indices.len() ==> #[trigger] indices[i] < n
}

/// The codes of samples `at`: bins with cut points fit on samples `fit`, or category ids.
pub open spec fn coded(
    column: Column,
    fit: Seq<usize>,
    at: Seq<usize>,
    n_bins: nat,
) -> Seq<u32> {
    match column {
        Column::Continuous(v) => {
            let edges = encoder::edges_of(pick(v@, fit), n_bins);
            Seq::new(at.len(), |i: int| encoder::bin_id(edges, v@[at[i] as int]))
        },
        Column::Categorical(c) => pick(c@, at),
    }
}

/// Whether `coded` reads only entries that exist.
pub open spec fn codable(column: Column, fit: Seq<usize>, at: Seq<usize>) -> bool {
    &&& all_below(at, column.size())
    &&& column is Continuous ==> all_below(fit, column.size())
}

/// Whether a sample with the given code goes left: its bin is not above `state` for an ordered
/// cut, and equals `state` otherwise. A missing value never goes left in an ordered cut.
pub open spec fn goes_left(code: u32, state: u32, prefix: bool) -> bool {
    if prefix {
        code != encoder::MISSING_BIN && code <= state
    } else {
        code == state
    }
}

/// The items whose codes go to the given side.
pub open spec fn side<T>(
    items: Seq<T>,
    codes: Seq<u32>,
    state: u32,
    prefix: bool,
    left: bool,
) -> Seq<T>
    decreases codes.len(),
{
    if codes.len() == 0 {
        Seq::empty()
    } else {
        let before = side(items, codes.drop_last(), state, prefix, left);
        if goes_left(codes.last(), state, prefix) == left {
            before.push(items[codes.len() - 1])
        } else {
            before
        }
    }
}

/// The impurity that a criterion assigns, as a function.
pub open spec fn measure<T: Copy, C: Criterion<T> + ?Sized>(criterion: &C) -> spec_fn(
    Seq<T>,
) -> Float {
    |targets: Seq<T>| criterion.impurity_of(targets)
}

/// Impurity of two children, each weighted by its size.
pub open spec fn weighted(nl: nat, il: Float, nr: nat, ir: Float, n: nat) -> Float {
    Float::quotient_of(
        Float::sum_of(
            Float::product_of(Float::of_nat(nl), il),
            Float::product_of(Float::of_nat(nr), ir),
        ),
        Float::of_nat(n),
    )
}

/// The impurity decrease of a split on one fold; none when a child is too small.
pub open spec fn fold_gain<T>(
    impurity: spec_fn(Seq<T>) -> Float,
    targets: Seq<T>,
    codes: Seq<u32>,
    state: u32,
    min_child: nat,
    prefix: bool,
) -> Option<Float> {
    let l = side(targets, codes, state, prefix, true);
    let r = side(targets, codes, state, prefix, false);
    if l.len() < min_child || r.len() < min_child {
        None
    } else {
        Some(
            Float::difference_of(
                impurity(targets),
                weighted(l.len(), impurity(l), r.len(), impurity(r), targets.len()),
            ),
        )
    }
}

/// The impurity decreases of a split on the folds in which it is valid. Cut points are fit on
/// training samples, and impurity is measured on validation targets.
pub open spec fn fold_gains<T>(
    impurity: spec_fn(Seq<T>) -> Float,
    column: Column,
    targets: Seq<T>,
    state: u32,
    folds: Seq<FoldView>,
    n_bins: nat,
    min_child: nat,
    prefix: bool,
) -> Seq<Float>
    decreases folds.len(),
{
    if folds.len() == 0 {
        Seq::empty()
    } else {
        let before = fold_gains(
            impurity,
            column,
            targets,
            state,
            folds.drop_last(),
            n_bins,
            min_child,
            prefix,
        );
        let fold = folds.last();
        if fold.val.len() == 0 {
            before
        } else {
            match fold_gain(
                impurity,
                pick(targets, fold.val),
                coded(column, fold.train, fold.val, n_bins),
                state,
                min_child,
                prefix,
            ) {
                Some(gain) => before.push(gain),
                None => before,
            }
        }
    }
}

/// The summary of each state's impurity decreases.
pub open spec fn gain_stats<T>(
    impurity: spec_fn(Seq<T>) -> Float,
    column: Column,
    targets: Seq<T>,
    states: Seq<u32>,
    folds: Seq<FoldView>,
    n_bins: nat,
    min_child: nat,
    prefix: bool,
) -> Seq<StatsView> {
    Seq::new(
        states.len(),
        |i: int|
            summary(
                fold_gains(
                    impurity,
                    column,
                    targets,
                    states[i],
                    folds,
                    n_bins,
                    min_child,
                    prefix,
                ),
                folds.len(),
            ),
    )
}

/// Whether the samples of every fold exist, as far as they are read.
pub open spec fn folds_fit(column: Column, n_targets: nat, folds: Seq<FoldView>) -> bool {
    forall|f: int|
        0 <= f < folds.len() && (#[trigger] folds[f]).val.len() > 0 ==> codable(
            column,
            folds[f].train,
            folds[f].val,
        ) && all_below(folds[f].val, n_targets)
}

/// Whether two columns are of one kind and hold equal values for the given samples.
pub open spec fn agree_on(a: Column, b: Column, samples: Seq<usize>) -> bool {
    match (a, b) {
        (Column::Continuous(u), Column::Continuous(v)) => pick(u@, samples) == pick(v@, samples),
        (Column::Categorical(u), Column::Categorical(v)) => pick(u@, samples) == pick(v@, samples),
        _ => false,
    }
}

/// Leakage guard for features: the code of a sample follows from its own value and the values of
/// the samples on which cut points are fit. No other sample of the column matters.
pub proof fn law_cuts_see_training_values_only(
    a: Column,
    b: Column,
    fit: Seq<usize>,
    at: Seq<usize>,
    i: int,
    n_bins: nat,
)
    requires
        0 <= i < at.len(),
        agree_on(a, b, fit),
        agree_on(a, b, seq![at[i]]),
    ensures
        coded(a, fit, at, n_bins)[i] == coded(b, fit, at, n_bins)[i],
{
    match (a, b) {
        (Column::Continuous(u), Column::Continuous(v)) => {
            assert(pick(u@, seq![at[i]])[0] == pick(v@, seq![at[i]])[0]);
        },
        (Column::Categorical(u), Column::Categorical(v)) => {
            assert(pick(u@, seq![at[i]])[0] == pick(v@, seq![at[i]])[0]);
        },
        _ => {},
    }
}

/// Leakage guard for targets: the impurity decrease on a fold follows from the feature values of
/// the fold and the targets of its validation samples. Its training targets do not matter.
pub proof fn law_gains_see_validation_targets_only<T>(
    impurity: spec_fn(Seq<T>) -> Float,
    a: Column,
    b: Column,
    s: Seq<T>,
    t: Seq<T>,
    state: u32,
    fold: FoldView,
    n_bins: nat,
    min_child: nat,
    prefix: bool,
)
    requires
        agree_on(a, b, fold.train),
        agree_on(a, b, fold.val),
        pick(s, fold.val) == pick(t, fold.val),
    ensures
        fold_gains(impurity, a, s, state, seq![fold], n_bins, min_child, prefix) == fold_gains(
            impurity,
            b,
            t,
            state,
            seq![fold],
            n_bins,
            min_child,
            prefix,
        ),
{
    reveal_with_fuel(fold_gains, 2);
    lemma_codes_agree(a, b, fold.train, fold.val, n_bins);
    assert(seq![fold].drop_last() =~= Seq::empty());
}

/// Columns that agree where they are read have equal codes.
pub(crate) proof fn lemma_codes_agree(
    a: Column,
    b: Column,
    fit: Seq<usize>,
    at: Seq<usize>,
    n_bins: nat,
)
    requires
        agree_on(a, b, fit),
        agree_on(a, b, at),
    ensures
        coded(a, fit, at, n_bins) == coded(b, fit, at, n_bins),
{
    assert forall|i: int| 0 <= i < at.len() implies agree_on(a, b, seq![#[trigger] at[i]]) by {
        match (a, b) {
            (Column::Continuous(u), Column::Continuous(v)) => {
                assert(pick(u@, at)[i] == pick(v@, at)[i]);
                assert(pick(u@, seq![at[i]]) =~= pick(v@, seq![at[i]]));
            },
            (Column::Categorical(u), Column::Categorical(v)) => {
                assert(pick(u@, at)[i] == pick(v@, at)[i]);
                assert(pick(u@, seq![at[i]]) =~= pick(v@, seq![at[i]]));
            },
            _ => {},
        }
    }
    assert forall|i: int| 0 <= i < at.len() implies coded(a, fit, at, n_bins)[i] == coded(
        b,
        fit,
        at,
        n_bins,
    )[i] by {
        assert(agree_on(a, b, seq![at[i]]));
        law_cuts_see_training_values_only(a, b, fit, at, i, n_bins);
    }
    assert(coded(a, fit, at, n_bins) =~= coded(b, fit, at, n_bins));
}

/// The elements at the given indices.
pub(crate) fn picked<T: Copy>(s: &[T], indices: &[usize]) -> (r: Vec<T>)
    requires
        all_below(indices@, s@.len()),
    ensures
        r@ == pick(s@, indices@),
{
    let mut r: Vec<T> = Vec::new();
    let mut i: usize = 0;
    while i < indices.len()
        invariant
            i <= indices@.len(),
            all_below(indices@, s@.len()),
            r@ == pick(s@, indices@).take(i as int),
        decreases indices@.len() - i,
    {
        r.push(s[indices[i]]);
        i += 1;
        assert(r@ =~= pick(s@, indices@).take(i as int));
    }
    assert(r@ =~= pick(s@, indices@));
    r
}

/// The codes of samples `at`, with cut points fit on samples `fit`.
pub(crate) fn codes_of(column: &Column, fit: &[usize], at: &[usize], n_bins: usize) -> (r: Vec<
    u32,
>)
    requires
        codable(*column, fit@, at@),
    ensures
        r@ == coded(*column, fit@, at@, n_bins as nat),
{
    match column {
        Column::Continuous(v) => {
            let fit_values = picked(v.as_slice(), fit);
            let edges = encoder::quantile_edges(fit_values.as_slice(), n_bins);
            let mut r: Vec<u32> = Vec::new();
            let mut i: usize = 0;
            let ghost goal = coded(*column, fit@, at@, n_bins as nat);
            while i < at.len()
                invariant
                    i <= at@.len(),
                    *column == Column::Continuous(*v),
                    all_below(at@, v@.len()),
                    edges@ == encoder::edges_of(pick(v@, fit@), n_bins as nat),
                    goal == coded(*column, fit@, at@, n_bins as nat),
                    r@ == goal.take(i as int),
                decreases at@.len() - i,
            {
                proof {
                    encoder::law_edges(pick(v@, fit@), n_bins as nat);
                    encoder::lemma_partitioned(edges@, v@[at@[i as int] as int]);
                }
                r.push(encoder::bin_of(edges.as_slice(), v[at[i]]));
                i += 1;
                assert(r@ =~= goal.take(i as int));
            }
            assert(r@ =~= goal);
            r
        },
        Column::Categorical(c) => picked(c.as_slice(), at),
    }
}

fn sends_left(code: u32, state: u32, prefix: bool) -> (r: bool)
    ensures
        r == goes_left(code, state, prefix),
{
    if prefix {
        code != encoder::MISSING_BIN && code <= state
    } else {
        code == state
    }
}

/// The impurity decrease of one split on one fold.
fn gain_on_fold<T: Copy, C: Criterion<T> + ?Sized>(
    criterion: &C,
    targets: &[T],
    codes: &[u32],
    parent: Float,
    state: u32,
    min_child: usize,
    prefix: bool,
) -> (r: Option<Float>)
    requires
        targets@.len() == codes@.len(),
        parent == criterion.impurity_of(targets@),
    ensures
        r == fold_gain(
            measure::<T, C>(criterion),
            targets@,
            codes@,
            state,
            min_child as nat,
            prefix,
        ),
{
    let mut left: Vec<T> = Vec::new();
    let mut right: Vec<T> = Vec::new();
    let mut i: usize = 0;
    while i < codes.len()
        invariant
            i <= codes@.len(),
            targets@.len() == codes@.len(),
            left@ == side(targets@, codes@.take(i as int), state, prefix, true),
            right@ == side(targets@, codes@.take(i as int), state, prefix, false),
        decreases codes@.len() - i,
    {
        assert(codes@.take(i + 1).drop_last() =~= codes@.take(i as int));
        if sends_left(codes[i], state, prefix) {
            left.push(targets[i]);
        } else {
            right.push(targets[i]);
        }
        i += 1;
    }
    assert(codes@.take(i as int) =~= codes@);
    if left.len() < min_child || right.len() < min_child {
        return None;
    }
    let il = criterion.impurity(left.as_slice());
    let ir = criterion.impurity(right.as_slice());
    let child = weigh(left.len() as u64, il, right.len() as u64, ir, targets.len() as u64);
    Some(parent.minus(child))
}

/// The items whose codes go left.
pub(crate) fn left_side<T: Copy>(items: &[T], codes: &[u32], state: u32, prefix: bool) -> (r: Vec<
    T,
>)
    requires
        items@.len() == codes@.len(),
    ensures
        r@ == side(items@, codes@, state, prefix, true),
{
    let mut left: Vec<T> = Vec::new();
    let mut i: usize = 0;
    while i < codes.len()
        invariant
            i <= codes@.len(),
            items@.len() == codes@.len(),
            left@ == side(items@, codes@.take(i as int), state, prefix, true),
        decreases codes@.len() - i,
    {
        assert(codes@.take(i + 1).drop_last() =~= codes@.take(i as int));
        if sends_left(codes[i], state, prefix) {
            left.push(items[i]);
        }
        i += 1;
    }
    assert(codes@.take(i as int) =~= codes@);
    left
}

/// Impurity of two children, each weighted by its size.
pub(crate) fn weigh(nl: u64, il: Float, nr: u64, ir: Float, n: u64) -> (r: Float)
    ensures
        r == weighted(nl as nat, il, nr as nat, ir, n as nat),
{
    Float::from_u64(nl).times(il).plus(Float::from_u64(nr).times(ir)).over(Float::from_u64(n))
}

/// What scoring needs of a fold with validation samples.
struct Prepared<T> {
    targets: Vec<T>,
    codes: Vec<u32>,
    parent: Float,
}

/// Scores every given state of one feature across the folds: one summary for each state.
pub fn eval_feature<T: Copy, C: Criterion<T> + ?Sized>(
    columns: &[Column],
    targets: &[T],
    feature: usize,
    states: &[u32],
    folds: &[Fold],
    n_bins: usize,
    criterion: &C,
    min_child: usize,
    prefix: bool,
) -> (r: Vec<FoldStats>)
    requires
        feature < columns@.len(),
        folds_fit(columns@[feature as int], targets@.len(), fold_views(folds@)),
    ensures
        stats_views(r@) == gain_stats(
            measure::<T, C>(criterion),
            columns@[feature as int],
            targets@,
            states@,
            fold_views(folds@),
            n_bins as nat,
            if min_child == 0 {
                1
            } else {
                min_child as nat
            },
            prefix,
        ),
{
    let least: usize = if min_child == 0 {
        1
    } else {
        min_child
    };
    let ghost views = fold_views(folds@);
    let ghost column = columns@[feature as int];
    let mut prepared: Vec<Option<Prepared<T>>> = Vec::new();
    let mut f: usize = 0;
    while f < folds.len()
        invariant
            f <= folds@.len(),
            feature < columns@.len(),
            column == columns@[feature as int],
            views == fold_views(folds@),
            folds_fit(column, targets@.len(), views),
            prepared@.len() == f,
            forall|g: int|
                0 <= g < f ==> match #[trigger] prepared@[g] {
                    None => views[g].val.len() == 0,
                    Some(p) => {
                        &&& views[g].val.len() > 0
                        &&& p.targets@ == pick(targets@, views[g].val)
                        &&& p.codes@ == coded(column, views[g].train, views[g].val, n_bins as nat)
                        &&& p.parent == criterion.impurity_of(p.targets@)
                    },
                },
        decreases folds@.len() - f,
    {
        let fold = &folds[f];
        assert(views[f as int] == fold@);
        if fold.val.len() == 0 {
            prepared.push(None);
        } else {
            let codes = codes_of(
                &columns[feature],
                fold.train.as_slice(),
                fold.val.as_slice(),
                n_bins,
            );
            let val_targets = picked(targets, fold.val.as_slice());
            let parent = criterion.impurity(val_targets.as_slice());
            prepared.push(Some(Prepared { targets: val_targets, codes, parent }));
        }
        f += 1;
    }
    let ghost goal = gain_stats(
        measure::<T, C>(criterion),
        column,
        targets@,
        states@,
        views,
        n_bins as nat,
        least as nat,
        prefix,
    );
    let mut out: Vec<FoldStats> = Vec::new();
    let mut s: usize = 0;
    while s < states.len()
        invariant
            s <= states@.len(),
            views == fold_views(folds@),
            prepared@.len() == folds@.len(),
            goal == gain_stats(
                measure::<T, C>(criterion),
                column,
                targets@,
                states@,
                views,
                n_bins as nat,
                least as nat,
                prefix,
            ),
            forall|g: int|
                0 <= g < prepared@.len() ==> match #[trigger] prepared@[g] {
                    None => views[g].val.len() == 0,
                    Some(p) => {
                        &&& views[g].val.len() > 0
                        &&& p.targets@ == pick(targets@, views[g].val)
                        &&& p.codes@ == coded(column, views[g].train, views[g].val, n_bins as nat)
                        &&& p.parent == criterion.impurity_of(p.targets@)
                    },
                },
            out@.len() == s,
            forall|i: int| 0 <= i < s ==> #[trigger] out@[i]@ == goal[i],
        decreases states@.len() - s,
    {
        let state: u32 = states[s];
        let mut scores: Vec<Float> = Vec::new();
        let mut g: usize = 0;
        while g < prepared.len()
            invariant
                g <= prepared@.len(),
                views == fold_views(folds@),
                prepared@.len() == folds@.len(),
                forall|g: int|
                    0 <= g < prepared@.len() ==> match #[trigger] prepared@[g] {
                        None => views[g].val.len() == 0,
                        Some(p) => {
                            &&& views[g].val.len() > 0
                            &&& p.targets@ == pick(targets@, views[g].val)
                            &&& p.codes@ == coded(
                                column,
                                views[g].train,
                                views[g].val,
                                n_bins as nat,
                            )
                            &&& p.parent == criterion.impurity_of(p.targets@)
                        },
                    },
                scores@ == fold_gains(
                    measure::<T, C>(criterion),
                    column,
                    targets@,
                    state,
                    views.take(g as int),
                    n_bins as nat,
                    least as nat,
                    prefix,
                ),
            decreases prepared@.len() - g,
        {
            assert(views.take(g + 1).drop_last() =~= views.take(g as int));
            assert(prepared@[g as int] is None || prepared@[g as int] is Some);
            match &prepared[g] {
                None => {},
                Some(p) => {
                    let gain = gain_on_fold(
                        criterion,
                        p.targets.as_slice(),
                        p.codes.as_slice(),
                        p.parent,
                        state,
                        least,
                        prefix,
                    );
                    match gain {
                        Some(x) => {
                            scores.push(x);
                        },
                        None => {},
                    }
                },
            }
            g += 1;
        }
        assert(views.take(g as int) =~= views);
        out.push(FoldStats::from_scores(scores, folds.len()));
        s += 1;
    }
    assert(stats_views(out@) =~= goal);
    out
}

/// Items beyond the codes do not matter.
proof fn lemma_side_prefix<T>(
    items: Seq<T>,
    more: Seq<T>,
    codes: Seq<u32>,
    state: u32,
    prefix: bool,
    left: bool,
)
    requires
        codes.len() <= items.len() <= more.len(),
        forall|i: int| 0 <= i < items.len() ==> items[i] == more[i],
    ensures
        side(items, codes, state, prefix, left) == side(more, codes, state, prefix, left),
    decreases codes.len(),
{
    if codes.len() > 0 {
        lemma_side_prefix(items, more, codes.drop_last(), state, prefix, left);
    }
}

/// One more item with its code.
pub(crate) proof fn lemma_side_push<T>(
    items: Seq<T>,
    codes: Seq<u32>,
    x: T,
    code: u32,
    state: u32,
    prefix: bool,
    left: bool,
)
    requires
        items.len() == codes.len(),
    ensures
        side(items.push(x), codes.push(code), state, prefix, left) == if goes_left(
            code,
            state,
            prefix,
        ) == left {
            side(items, codes, state, prefix, left).push(x)
        } else {
            side(items, codes, state, prefix, left)
        },
{
    assert(codes.push(code).drop_last() =~= codes);
    lemma_side_prefix(items, items.push(x), codes, state, prefix, left);
}

/// A side holds no more items than there are codes, and both sides together hold all.
pub(crate) proof fn lemma_side_len<T>(items: Seq<T>, codes: Seq<u32>, state: u32, prefix: bool)
    ensures
        side(items, codes, state, prefix, true).len() + side(
            items,
            codes,
            state,
            prefix,
            false,
        ).len() == codes.len(),
    decreases codes.len(),
{
    if codes.len() > 0 {
        lemma_side_len(items, codes.drop_last(), state, prefix);
    }
}

/// Some item matches a state exactly when its code occurs.
pub(crate) proof fn lemma_side_occurs<T>(items: Seq<T>, codes: Seq<u32>, state: u32)
    ensures
        side(items, codes, state, false, true).len() > 0 <==> codes.contains(state),
    decreases codes.len(),
{
    if codes.len() > 0 {
        let d = codes.drop_last();
        lemma_side_occurs(items, d, state);
        if codes.contains(state) {
            let i = choose|i: int| 0 <= i < codes.len() && codes[i] == state;
            if i < d.len() {
                assert(d[i] == state);
            }
        }
        if d.contains(state) {
            let i = choose|i: int| 0 <= i < d.len() && d[i] == state;
            assert(codes[i] == state);
        }
        if codes.last() == state {
            assert(codes[codes.len() - 1] == state);
        }
    }
}

/// A side holds only given items.
pub(crate) proof fn lemma_side_members<T>(
    items: Seq<T>,
    codes: Seq<u32>,
    state: u32,
    prefix: bool,
    left: bool,
    ok: spec_fn(T) -> bool,
)
    requires
        codes.len() <= items.len(),
        forall|i: int| 0 <= i < items.len() ==> ok(#[trigger] items[i]),
    ensures
        forall|i: int|
            0 <= i < side(items, codes, state, prefix, left).len() ==> ok(
                #[trigger] side(items, codes, state, prefix, left)[i],
            ),
    decreases codes.len(),
{
    if codes.len() > 0 {
        let before = side(items, codes.drop_last(), state, prefix, left);
        let after = side(items, codes, state, prefix, left);
        lemma_side_members(items, codes.drop_last(), state, prefix, left, ok);
        assert forall|i: int| 0 <= i < after.len() implies ok(#[trigger] after[i]) by {
            if i < before.len() {
                assert(ok(before[i]));
            } else {
                assert(ok(items[codes.len() - 1]));
            }
        }
    }
}

} // verus!
