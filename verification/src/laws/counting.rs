//! Counting the members of a range that have a property.

use crate::criterion;
use crate::cross_validation;
use vstd::prelude::*;

verus! {

/// How many of the numbers below `n` have a property.
pub open spec fn count_where(n: nat, has: spec_fn(int) -> bool) -> nat
    decreases n,
{
    if n == 0 {
        0
    } else {
        count_where((n - 1) as nat, has) + if has(n - 1) {
            1nat
        } else {
            0
        }
    }
}

/// Properties that agree are had equally often.
pub proof fn lemma_count_agrees(n: nat, a: spec_fn(int) -> bool, b: spec_fn(int) -> bool)
    requires
        forall|i: int| 0 <= i < n ==> #[trigger] a(i) == b(i),
    ensures
        count_where(n, a) == count_where(n, b),
    decreases n,
{
    if n > 0 {
        lemma_count_agrees((n - 1) as nat, a, b);
        assert(a(n - 1) == b(n - 1));
    }
}

/// A count is at most the size of the range.
pub proof fn lemma_count_bound(n: nat, a: spec_fn(int) -> bool)
    ensures
        count_where(n, a) <= n,
    decreases n,
{
    if n > 0 {
        lemma_count_bound((n - 1) as nat, a);
    }
}

/// A property is had by somebody exactly when its count is positive.
pub proof fn lemma_count_positive(n: nat, a: spec_fn(int) -> bool)
    ensures
        count_where(n, a) > 0 <==> exists|i: int| 0 <= i < n && #[trigger] a(i),
    decreases n,
{
    if n > 0 {
        let m = (n - 1) as nat;
        lemma_count_positive(m, a);
        if count_where(m, a) > 0 {
            let i = choose|i: int| 0 <= i < m && #[trigger] a(i);
            assert(0 <= i < n && a(i));
        }
    }
}

/// Whether a code is on the left of a split: not above the state for an ordered cut, where a
/// missing value is never on the left, and equal to the state otherwise.
pub open spec fn on_left(code: u32, state: u32, prefix: bool) -> bool {
    if prefix {
        code != 0xffff_ffff && code <= state
    } else {
        code == state
    }
}

/// The samples on one side of a split.
pub open spec fn on_side(codes: Seq<u32>, state: u32, prefix: bool, left: bool) -> spec_fn(
    int,
) -> bool {
    |i: int| on_left(codes[i], state, prefix) == left
}

/// The samples that are here and have the given label.
pub open spec fn labelled(here: spec_fn(int) -> bool, label: spec_fn(int) -> nat, c: nat) -> spec_fn(
    int,
) -> bool {
    |i: int| here(i) && label(i) == c
}

/// The labels, as a function.
pub open spec fn labels_at(labels: Seq<usize>) -> spec_fn(int) -> nat {
    |i: int| labels[i] as nat
}

/// A label occurs on a side of a split as often as there are samples with the label on that side.
pub proof fn law_side_counts(
    labels: Seq<usize>,
    codes: Seq<u32>,
    state: u32,
    prefix: bool,
    left: bool,
    c: nat,
)
    requires
        labels.len() == codes.len(),
    ensures
        criterion::tally(cross_validation::side(labels, codes, state, prefix, left), c)
            == count_where(
            codes.len(),
            labelled(on_side(codes, state, prefix, left), labels_at(labels), c),
        ),
        cross_validation::side(labels, codes, state, prefix, left).len() == count_where(
            codes.len(),
            on_side(codes, state, prefix, left),
        ),
    decreases codes.len(),
{
    if codes.len() > 0 {
        let d = labels.drop_last();
        let e = codes.drop_last();
        law_side_counts(d, e, state, prefix, left, c);
        let m = e.len();
        lemma_count_agrees(
            m,
            labelled(on_side(e, state, prefix, left), labels_at(d), c),
            labelled(on_side(codes, state, prefix, left), labels_at(labels), c),
        );
        lemma_count_agrees(
            m,
            on_side(e, state, prefix, left),
            on_side(codes, state, prefix, left),
        );
        assert(labels =~= d.push(labels.last()));
        assert(codes =~= e.push(codes.last()));
        cross_validation::lemma_side_push(
            d,
            e,
            labels.last(),
            codes.last(),
            state,
            prefix,
            left,
        );
        crate::histogram::lemma_tally_push(
            cross_validation::side(d, e, state, prefix, left),
            labels.last(),
            c,
        );
    }
}

/// The whole range.
pub open spec fn everywhere() -> spec_fn(int) -> bool {
    |i: int| true
}

/// A label occurs as often as there are positions with it.
pub proof fn law_label_counts(labels: Seq<usize>, c: nat)
    ensures
        criterion::tally(labels, c) == count_where(
            labels.len(),
            labelled(everywhere(), labels_at(labels), c),
        ),
    decreases labels.len(),
{
    if labels.len() > 0 {
        let d = labels.drop_last();
        law_label_counts(d, c);
        lemma_count_agrees(
            d.len(),
            labelled(everywhere(), labels_at(d), c),
            labelled(everywhere(), labels_at(labels), c),
        );
    }
}

} // verus!
