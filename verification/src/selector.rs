//! Picking the winning split among scored candidates.

use crate::candidate::Candidate;
use crate::cross_validation::{FoldStats, StatsView};
use crate::float::Float;
use vstd::prelude::*;

verus! {

/// A candidate with its score and the statistics behind it.
#[derive(Clone, Debug)]
pub struct ScoredCandidate {
    /// The scored split.
    pub candidate: Candidate,
    /// The ranking score; higher is better.
    pub score: Float,
    /// The per-fold statistics of the split.
    pub stats: FoldStats,
}

/// The contents of a scored candidate.
#[verifier::ext_equal]
pub struct ScoredView {
    pub candidate: Candidate,
    pub score: Float,
    pub stats: StatsView,
}

impl View for ScoredCandidate {
    type V = ScoredView;

    open spec fn view(&self) -> ScoredView {
        ScoredView { candidate: self.candidate, score: self.score, stats: self.stats@ }
    }
}

/// The contents of each scored candidate.
pub open spec fn scored_views(scored: Seq<ScoredCandidate>) -> Seq<ScoredView> {
    Seq::new(scored.len(), |i: int| scored[i]@)
}

/// Whether candidate `a` comes before `b`: by feature, then by state.
pub open spec fn precedes(a: Candidate, b: Candidate) -> bool {
    a.feature < b.feature || (a.feature == b.feature && a.state < b.state)
}

/// Whether `a` wins against `b`: a higher score, or the same score and an earlier split.
pub open spec fn beats(a: ScoredView, b: ScoredView) -> bool {
    Float::below(b.score, a.score) || (!Float::below(a.score, b.score) && precedes(
        a.candidate,
        b.candidate,
    ))
}

/// Position of the winner: the first candidate with a finite score that no other beats.
pub open spec fn winner(s: Seq<ScoredView>) -> Option<nat>
    decreases s.len(),
{
    if s.len() == 0 {
        None
    } else {
        let last = s.last();
        match winner(s.drop_last()) {
            None => if last.score.finite() {
                Some((s.len() - 1) as nat)
            } else {
                None
            },
            Some(b) => if last.score.finite() && beats(last, s[b as int]) {
                Some((s.len() - 1) as nat)
            } else {
                Some(b)
            },
        }
    }
}

/// There is a winner exactly when some score is finite. Its score is finite, no candidate with a
/// finite score beats it, and it comes first among those that tie with it in score and split.
pub proof fn law_winner(s: Seq<ScoredView>)
    ensures
        winner(s) is None <==> forall|i: int| 0 <= i < s.len() ==> !(#[trigger] s[i]).score.finite(),
        winner(s) matches Some(b) ==> {
            &&& b < s.len()
            &&& s[b as int].score.finite()
            &&& forall|i: int|
                0 <= i < s.len() && (#[trigger] s[i]).score.finite() ==> !beats(s[i], s[b as int])
            &&& forall|i: int|
                0 <= i < b && (#[trigger] s[i]).score.finite() ==> beats(s[b as int], s[i])
        },
    decreases s.len(),
{
    if s.len() > 0 {
        let d = s.drop_last();
        law_winner(d);
        assert forall|i: int| 0 <= i < d.len() implies d[i] == s[i] by {}
        match winner(d) {
            None => {
                assert forall|i: int| 0 <= i < d.len() implies !(#[trigger] s[i]).score.finite() by {
                    assert(!d[i].score.finite());
                }
                if s.last().score.finite() {
                    assert(s[s.len() - 1].score.finite());
                }
            },
            Some(b) => {
                assert(s[b as int] == d[b as int]);
                let w = winner(s)->Some_0;
                assert forall|i: int| 0 <= i < s.len() && (#[trigger] s[i]).score.finite() implies !beats(
                    s[i],
                    s[w as int],
                ) by {
                    if i < d.len() {
                        assert(d[i].score.finite());
                    }
                }
                assert forall|i: int| 0 <= i < w && (#[trigger] s[i]).score.finite() implies beats(
                    s[w as int],
                    s[i],
                ) by {
                    assert(d[i].score.finite());
                }
            },
        }
    }
}

/// The winning split does not depend on the order of the candidates: if two lists hold the same
/// candidates, and no two of them are the same split, both have the same winner.
pub proof fn law_winner_ignores_order(s: Seq<ScoredView>, t: Seq<ScoredView>)
    requires
        forall|x: ScoredView| #[trigger] s.contains(x) <==> t.contains(x),
        forall|i: int, j: int|
            0 <= i < s.len() && 0 <= j < s.len() && (#[trigger] s[i]).candidate == (
            #[trigger] s[j]).candidate ==> s[i] == s[j],
    ensures
        winner(s) is Some <==> winner(t) is Some,
        winner(s) matches Some(a) ==> s[a as int] == t[winner(t)->Some_0 as int],
{
    law_winner(s);
    law_winner(t);
    if winner(s) is Some {
        let x = s[winner(s)->Some_0 as int];
        assert(s.contains(x));
        assert(t.contains(x));
        let i = choose|i: int| 0 <= i < t.len() && t[i] == x;
        assert(t[i].score.finite());
    }
    if winner(t) is Some {
        let y = t[winner(t)->Some_0 as int];
        assert(t.contains(y));
        assert(s.contains(y));
        let j = choose|j: int| 0 <= j < s.len() && s[j] == y;
        assert(s[j].score.finite());
    }
    if winner(s) is Some {
        let x = s[winner(s)->Some_0 as int];
        let y = t[winner(t)->Some_0 as int];
        assert(s.contains(x) && t.contains(x));
        assert(t.contains(y) && s.contains(y));
        let i = choose|i: int| 0 <= i < t.len() && t[i] == x;
        let j = choose|j: int| 0 <= j < s.len() && s[j] == y;
        assert(!beats(t[i], y));
        assert(!beats(s[j], x));
        assert(x.candidate == y.candidate);
        assert(s[winner(s)->Some_0 as int].candidate == s[j].candidate);
    }
}

/// The best candidate: the highest finite score, ties going to the smaller feature and then the
/// smaller state. None when no score is finite.
pub fn select_best(scored: &[ScoredCandidate]) -> (r: Option<&ScoredCandidate>)
    ensures
        match winner(scored_views(scored@)) {
            Some(b) => r == Some(&scored@[b as int]),
            None => r is None,
        },
{
    let mut best: Option<usize> = None;
    let mut i: usize = 0;
    let ghost s = scored_views(scored@);
    while i < scored.len()
        invariant
            i <= scored@.len(),
            s == scored_views(scored@),
            match winner(s.take(i as int)) {
                Some(b) => best matches Some(x) && x == b && x < i,
                None => best is None,
            },
        decreases scored@.len() - i,
    {
        assert(s.take(i + 1).drop_last() =~= s.take(i as int));
        let cand = &scored[i];
        if cand.score.is_finite() {
            match best {
                None => {
                    best = Some(i);
                },
                Some(b) => {
                    let held = &scored[b];
                    let earlier: bool = cand.candidate.feature < held.candidate.feature || (
                    cand.candidate.feature == held.candidate.feature && cand.candidate.state
                        < held.candidate.state);
                    if held.score.lt(cand.score) || (!cand.score.lt(held.score) && earlier) {
                        best = Some(i);
                    }
                },
            }
        }
        i += 1;
    }
    assert(s.take(i as int) =~= s);
    match best {
        Some(b) => Some(&scored[b]),
        None => None,
    }
}

} // verus!
