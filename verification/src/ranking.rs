//! Selection of the best candidates.
//!
//! The candidates of a source are chosen from the scores of all choices, which
//! are offered one by one, in the order of the choices, to a buffer of
//! `CHOICE_PREVIEW_COUNT` slots. While a slot is free the offer takes it. Once
//! all are taken, an offer replaces the first slot that holds the least score,
//! and only if that score is below its own. What the buffer holds in the end is
//! ranked from the highest score to the lowest, slots of equal score staying
//! in the order of the buffer.

use vstd::prelude::*;
use crate::score::Score;

verus! {

/// How many candidates are kept for a source.
pub const CHOICE_PREVIEW_COUNT: usize = 10;

/// A choice, by its place among the choices, with its score against a source.
#[derive(Clone, Copy, Debug, PartialEq, Eq, Structural)]
pub struct Candidate {
    pub index: usize,
    pub score: Score,
}

/// Whether slot `w` is the first of `slots` to hold their least score.
pub open spec fn is_weakest(slots: Seq<Candidate>, w: int) -> bool {
    &&& 0 <= w < slots.len()
    &&& forall|j: int|
        0 <= j < slots.len() ==> slots[w].score.bits <= (#[trigger] slots[j]).score.bits
    &&& forall|j: int| 0 <= j < w ==> slots[w].score.bits < (#[trigger] slots[j]).score.bits
}

/// The first slot to hold the least score of `slots`.
pub open spec fn weakest(slots: Seq<Candidate>) -> int
    recommends
        slots.len() > 0,
{
    choose|w: int| is_weakest(slots, w)
}

/// The buffer after `candidate` was offered to `slots`.
pub open spec fn offered(slots: Seq<Candidate>, candidate: Candidate) -> Seq<Candidate> {
    if slots.len() < CHOICE_PREVIEW_COUNT {
        slots.push(candidate)
    } else if slots[weakest(slots)].score.bits < candidate.score.bits {
        slots.update(weakest(slots), candidate)
    } else {
        slots
    }
}

/// The buffer after every one of `scores` was offered, each under its place.
pub open spec fn gathered(scores: Seq<Score>) -> Seq<Candidate>
    decreases scores.len(),
{
    if scores.len() == 0 {
        Seq::empty()
    } else {
        offered(
            gathered(scores.drop_last()),
            Candidate { index: (scores.len() - 1) as usize, score: scores.last() },
        )
    }
}

/// Where `candidate` goes among `sorted`: behind every entry whose score is
/// not below its own.
pub open spec fn standing(sorted: Seq<Candidate>, candidate: Candidate) -> int
    decreases sorted.len(),
{
    if sorted.len() == 0 || sorted.last().score.bits >= candidate.score.bits {
        sorted.len() as int
    } else {
        standing(sorted.drop_last(), candidate)
    }
}

/// The entries of `slots` from the highest score to the lowest, entries of
/// equal score in the order they have in `slots`.
pub open spec fn ranked(slots: Seq<Candidate>) -> Seq<Candidate>
    decreases slots.len(),
{
    if slots.len() == 0 {
        Seq::empty()
    } else {
        let before = ranked(slots.drop_last());
        before.insert(standing(before, slots.last()), slots.last())
    }
}

/// The candidates that are kept of `scores`, best first.
pub open spec fn selected(scores: Seq<Score>) -> Seq<Candidate> {
    ranked(gathered(scores))
}

/// Whether one of `picked` stands for the choice at place `choice`.
pub open spec fn holds(picked: Seq<Candidate>, choice: int) -> bool {
    exists|k: int| 0 <= k < picked.len() && (#[trigger] picked[k]).index == choice
}

/// Whether no two of `picked` stand for the same choice.
pub open spec fn distinct(picked: Seq<Candidate>) -> bool {
    forall|a: int, b: int|
        0 <= a < b < picked.len() ==> (#[trigger] picked[a]).index != (#[trigger] picked[b]).index
}

/// Whether the scores of `picked` never rise from one entry to the next.
pub open spec fn descending(picked: Seq<Candidate>) -> bool {
    forall|a: int, b: int|
        0 <= a < b < picked.len() ==> (#[trigger] picked[a]).score.bits >= (
        #[trigger] picked[b]).score.bits
}

/// Whether `picked` is a selection of the best of `scores`: as many entries as
/// there are scores, up to `CHOICE_PREVIEW_COUNT`; each the place of a score
/// with that score; no place twice; and no score that was left out above one
/// that was taken.
pub open spec fn is_selection(picked: Seq<Candidate>, scores: Seq<Score>) -> bool {
    &&& picked.len() == if scores.len() < CHOICE_PREVIEW_COUNT {
        scores.len()
    } else {
        CHOICE_PREVIEW_COUNT as nat
    }
    &&& forall|k: int|
        0 <= k < picked.len() ==> (#[trigger] picked[k]).index < scores.len() && picked[k].score
            == scores[picked[k].index as int]
    &&& distinct(picked)
    &&& forall|j: int, k: int|
        0 <= j < scores.len() && 0 <= k < picked.len() && !holds(picked, j) ==> (
        #[trigger] scores[j]).bits <= (#[trigger] picked[k]).score.bits
}

/// A buffer that is not empty has a weakest slot.
pub proof fn lemma_weakest_exists(slots: Seq<Candidate>)
    requires
        slots.len() > 0,
    ensures
        is_weakest(slots, weakest(slots)),
    decreases slots.len(),
{
    if slots.len() == 1 {
        assert(is_weakest(slots, 0));
    } else {
        let front = slots.drop_last();
        lemma_weakest_exists(front);
        let w = weakest(front);
        assert forall|j: int| 0 <= j < front.len() implies front[j] == slots[j] by {}
        if slots.last().score.bits < slots[w].score.bits {
            assert(is_weakest(slots, slots.len() - 1)) by {
                assert forall|j: int| 0 <= j < slots.len() - 1 implies slots.last().score.bits < (
                #[trigger] slots[j]).score.bits by {
                    assert(front[w].score.bits <= front[j].score.bits);
                }
            }
        } else {
            assert(is_weakest(slots, w)) by {
                assert forall|j: int| 0 <= j < slots.len() implies slots[w].score.bits <= (
                #[trigger] slots[j]).score.bits by {
                    if j < front.len() {
                        assert(front[w].score.bits <= front[j].score.bits);
                    }
                }
                assert forall|j: int| 0 <= j < w implies slots[w].score.bits < (
                #[trigger] slots[j]).score.bits by {
                    assert(front[w].score.bits < front[j].score.bits);
                }
            }
        }
    }
}

/// No buffer has two weakest slots.
pub proof fn lemma_weakest_unique(slots: Seq<Candidate>, w: int)
    requires
        is_weakest(slots, w),
    ensures
        weakest(slots) == w,
{
    let v = weakest(slots);
    assert(is_weakest(slots, v));
    if v < w {
        assert(slots[w].score.bits < slots[v].score.bits);
        assert(slots[v].score.bits <= slots[w].score.bits);
    } else if w < v {
        assert(slots[v].score.bits < slots[w].score.bits);
        assert(slots[w].score.bits <= slots[v].score.bits);
    }
}

/// Where a candidate goes among entries in descending order: every entry
/// before that place has a score that is not below the candidate's, and every
/// entry from that place on has a lower one.
pub proof fn lemma_standing(sorted: Seq<Candidate>, candidate: Candidate)
    requires
        descending(sorted),
    ensures
        0 <= standing(sorted, candidate) <= sorted.len(),
        forall|j: int|
            0 <= j < standing(sorted, candidate) ==> (#[trigger] sorted[j]).score.bits
                >= candidate.score.bits,
        forall|j: int|
            standing(sorted, candidate) <= j < sorted.len() ==> (#[trigger] sorted[j]).score.bits
                < candidate.score.bits,
    decreases sorted.len(),
{
    if sorted.len() == 0 {
    } else if sorted.last().score.bits >= candidate.score.bits {
        assert forall|j: int| 0 <= j < sorted.len() implies (#[trigger] sorted[j]).score.bits
            >= candidate.score.bits by {
            if j < sorted.len() - 1 {
                assert(sorted[j].score.bits >= sorted[sorted.len() - 1].score.bits);
            }
        }
    } else {
        let front = sorted.drop_last();
        assert forall|a: int, b: int| 0 <= a < b < front.len() implies (
        #[trigger] front[a]).score.bits >= (#[trigger] front[b]).score.bits by {
            assert(sorted[a].score.bits >= sorted[b].score.bits);
        }
        lemma_standing(front, candidate);
        assert forall|j: int| 0 <= j < standing(sorted, candidate) implies (
        #[trigger] sorted[j]).score.bits >= candidate.score.bits by {
            assert(front[j].score.bits >= candidate.score.bits);
        }
        assert forall|j: int| standing(sorted, candidate) <= j < sorted.len() implies (
        #[trigger] sorted[j]).score.bits < candidate.score.bits by {
            if j < front.len() {
                assert(front[j].score.bits < candidate.score.bits);
            }
        }
    }
}

/// Ranking rearranges and orders: the ranked entries are as many as the slots,
/// they are the same entries, their scores descend, and where no two slots
/// stand for the same choice, no two ranked entries do.
pub proof fn lemma_ranked(slots: Seq<Candidate>)
    ensures
        ranked(slots).len() == slots.len(),
        descending(ranked(slots)),
        forall|k: int| 0 <= k < slots.len() ==> ranked(slots).contains(#[trigger] slots[k]),
        forall|k: int|
            0 <= k < ranked(slots).len() ==> slots.contains(#[trigger] ranked(slots)[k]),
        distinct(slots) ==> distinct(ranked(slots)),
    decreases slots.len(),
{
    if slots.len() > 0 {
        let front = slots.drop_last();
        let last = slots.last();
        let before = ranked(front);
        let at = standing(before, last);
        let after = ranked(slots);
        lemma_ranked(front);
        lemma_standing(before, last);
        before.insert_ensures(at, last);
        assert(after == before.insert(at, last));
        assert forall|k: int| 0 <= k < after.len() implies after[k] == (if k < at {
            before[k]
        } else if k == at {
            last
        } else {
            before[k - 1]
        }) by {}
        assert forall|a: int, b: int| 0 <= a < b < after.len() implies (
        #[trigger] after[a]).score.bits >= (#[trigger] after[b]).score.bits by {
            if b < at {
                assert(before[a].score.bits >= before[b].score.bits);
            } else if b == at {
                assert(before[a].score.bits >= last.score.bits);
            } else if a < at {
                assert(before[a].score.bits >= before[b - 1].score.bits);
            } else if a == at {
                assert(before[b - 1].score.bits < last.score.bits);
            } else {
                assert(before[a - 1].score.bits >= before[b - 1].score.bits);
            }
        }
        assert forall|k: int| 0 <= k < slots.len() implies after.contains(
            #[trigger] slots[k],
        ) by {
            if k < front.len() {
                assert(front[k] == slots[k]);
                assert(before.contains(front[k]));
                let m = choose|m: int| 0 <= m < before.len() && before[m] == front[k];
                if m < at {
                    assert(after[m] == slots[k]);
                } else {
                    assert(after[m + 1] == slots[k]);
                }
            } else {
                assert(after[at] == slots[k]);
            }
        }
        assert forall|k: int| 0 <= k < after.len() implies slots.contains(
            #[trigger] after[k],
        ) by {
            if k == at {
                assert(slots[slots.len() - 1] == after[k]);
            } else {
                let m = if k < at {
                    k
                } else {
                    k - 1
                };
                assert(front.contains(before[m]));
                let n = choose|n: int| 0 <= n < front.len() && front[n] == before[m];
                assert(slots[n] == after[k]);
            }
        }
        if distinct(slots) {
            assert(distinct(front)) by {
                assert forall|a: int, b: int| 0 <= a < b < front.len() implies (
                #[trigger] front[a]).index != (#[trigger] front[b]).index by {
                    assert(slots[a].index != slots[b].index);
                }
            }
            assert forall|m: int| 0 <= m < before.len() implies (#[trigger] before[m]).index
                != last.index by {
                assert(front.contains(before[m]));
                let n = choose|n: int| 0 <= n < front.len() && front[n] == before[m];
                assert(slots[n].index != slots[slots.len() - 1].index);
            }
            assert forall|a: int, b: int| 0 <= a < b < after.len() implies (
            #[trigger] after[a]).index != (#[trigger] after[b]).index by {
                if b < at {
                    assert(before[a].index != before[b].index);
                } else if b == at {
                    assert(before[a].index != last.index);
                } else if a < at {
                    assert(before[a].index != before[b - 1].index);
                } else if a == at {
                    assert(before[b - 1].index != last.index);
                } else {
                    assert(before[a - 1].index != before[b - 1].index);
                }
            }
        }
    }
}

/// Ranking keeps slots of equal score in their order: of two such slots, the
/// earlier one is ranked before the later one.
pub proof fn lemma_ranked_stable(slots: Seq<Candidate>, i: int, j: int)
    requires
        0 <= i < j < slots.len(),
        slots[i].score == slots[j].score,
    ensures
        exists|a: int, b: int|
            0 <= a < b < slots.len() && #[trigger] ranked(slots)[a] == slots[i]
                && #[trigger] ranked(slots)[b] == slots[j],
    decreases slots.len(),
{
    let front = slots.drop_last();
    let last = slots.last();
    let before = ranked(front);
    let at = standing(before, last);
    let after = ranked(slots);
    lemma_ranked(front);
    lemma_standing(before, last);
    before.insert_ensures(at, last);
    assert forall|k: int| 0 <= k < after.len() implies after[k] == (if k < at {
        before[k]
    } else if k == at {
        last
    } else {
        before[k - 1]
    }) by {}
    if j == slots.len() - 1 {
        assert(before.contains(front[i]));
        let a = choose|a: int| 0 <= a < before.len() && before[a] == front[i];
        if a >= at {
            assert(before[a].score.bits < last.score.bits);
        }
        assert(after[a] == slots[i] && after[at] == slots[j]);
    } else {
        lemma_ranked_stable(front, i, j);
        let (a, b) = choose|a: int, b: int|
            0 <= a < b < front.len() && #[trigger] before[a] == front[i]
                && #[trigger] before[b] == front[j];
        let shifted_a = if a < at {
            a
        } else {
            a + 1
        };
        let shifted_b = if b < at {
            b
        } else {
            b + 1
        };
        assert(after[shifted_a] == slots[i] && after[shifted_b] == slots[j]);
    }
}

/// What the buffer holds once every score was offered is a selection of the
/// best of them, and while there are no more scores than slots, each slot
/// holds the score of its own place.
pub proof fn lemma_gathered(scores: Seq<Score>)
    requires
        scores.len() <= usize::MAX,
    ensures
        is_selection(gathered(scores), scores),
        scores.len() <= CHOICE_PREVIEW_COUNT ==> forall|k: int|
            0 <= k < scores.len() ==> (#[trigger] gathered(scores)[k]).index == k,
    decreases scores.len(),
{
    if scores.len() > 0 {
        let front = scores.drop_last();
        let before = gathered(front);
        let place = scores.len() - 1;
        let newcomer = Candidate { index: place as usize, score: scores.last() };
        let after = gathered(scores);
        lemma_gathered(front);
        assert(after == offered(before, newcomer));
        assert forall|j: int| 0 <= j < front.len() implies front[j] == scores[j] by {}
        if before.len() < CHOICE_PREVIEW_COUNT {
            assert(after == before.push(newcomer));
            assert forall|j: int| 0 <= j < scores.len() implies holds(after, j) by {
                assert(after[j].index == j);
            }
        } else {
            lemma_weakest_exists(before);
            let w = weakest(before);
            if before[w].score.bits < newcomer.score.bits {
                assert(after == before.update(w, newcomer));
                assert forall|j: int, k: int|
                    0 <= j < scores.len() && 0 <= k < after.len() && !holds(after, j) implies (
                #[trigger] scores[j]).bits <= (#[trigger] after[k]).score.bits by {
                    assert(after[w].index == place);
                    assert(j != place);
                    assert(before[w].score.bits <= before[k].score.bits);
                    if j == before[w].index {
                    } else {
                        if holds(before, j) {
                            let m = choose|m: int|
                                0 <= m < before.len() && (#[trigger] before[m]).index == j;
                            assert(after[m].index == j);
                        }
                        assert(front[j].bits <= before[w].score.bits);
                    }
                }
            } else {
                assert forall|j: int, k: int|
                    0 <= j < scores.len() && 0 <= k < after.len() && !holds(after, j) implies (
                #[trigger] scores[j]).bits <= (#[trigger] after[k]).score.bits by {
                    if j == place {
                        assert(before[w].score.bits <= before[k].score.bits);
                    } else {
                        assert(front[j].bits <= before[k].score.bits);
                    }
                }
            }
        }
    }
}

/// The candidates that are kept of any scores are a selection of the best of
/// them, ranked from the highest score to the lowest. So there are as many of
/// them as there are scores, up to `CHOICE_PREVIEW_COUNT`, and none that was
/// left out has a higher score than one that was kept.
pub proof fn lemma_selected(scores: Seq<Score>)
    requires
        scores.len() <= usize::MAX,
    ensures
        is_selection(selected(scores), scores),
        descending(selected(scores)),
{
    let slots = gathered(scores);
    let best = ranked(slots);
    lemma_gathered(scores);
    lemma_ranked(slots);
    assert forall|k: int| 0 <= k < best.len() implies (#[trigger] best[k]).index < scores.len()
        && best[k].score == scores[best[k].index as int] by {
        assert(slots.contains(best[k]));
        let m = choose|m: int| 0 <= m < slots.len() && slots[m] == best[k];
        assert(slots[m].index < scores.len());
    }
    assert forall|j: int, k: int|
        0 <= j < scores.len() && 0 <= k < best.len() && !holds(best, j) implies (
    #[trigger] scores[j]).bits <= (#[trigger] best[k]).score.bits by {
        assert(slots.contains(best[k]));
        let m = choose|m: int| 0 <= m < slots.len() && slots[m] == best[k];
        if holds(slots, j) {
            let n = choose|n: int| 0 <= n < slots.len() && (#[trigger] slots[n]).index == j;
            assert(best.contains(slots[n]));
            let q = choose|q: int| 0 <= q < best.len() && best[q] == slots[n];
            assert(best[q].index == j);
        }
        assert(scores[j].bits <= slots[m].score.bits);
    }
}

/// Where every score stands for a number from zero to one, so does the score
/// of every candidate that is kept.
pub proof fn lemma_selected_in_unit(scores: Seq<Score>)
    requires
        scores.len() <= usize::MAX,
        forall|j: int| 0 <= j < scores.len() ==> (#[trigger] scores[j]).in_unit(),
    ensures
        forall|k: int|
            0 <= k < selected(scores).len() ==> (#[trigger] selected(scores)[k]).score.in_unit(),
{
    lemma_selected(scores);
    let best = selected(scores);
    assert forall|k: int| 0 <= k < best.len() implies (#[trigger] best[k]).score.in_unit() by {
        assert(scores[best[k].index as int].in_unit());
    }
}

/// Offers `candidate` to the buffer.
pub fn offer(slots: &mut Vec<Candidate>, candidate: Candidate)
    ensures
        final(slots)@ == offered(old(slots)@, candidate),
{
    if slots.len() < CHOICE_PREVIEW_COUNT {
        slots.push(candidate);
    } else {
        let mut w: usize = 0;
        let mut i: usize = 1;
        assert(is_weakest(slots@.take(1), 0));
        while i < slots.len()
            invariant
                1 <= i <= slots.len(),
                is_weakest(slots@.take(i as int), w as int),
            decreases slots.len() - i,
        {
            let ghost seen = slots@.take(i as int);
            let ghost next = slots@.take(i + 1);
            assert forall|j: int| 0 <= j < seen.len() implies seen[j] == next[j] by {}
            if slots[i].score.bits < slots[w].score.bits {
                proof {
                    assert forall|j: int| 0 <= j < i implies next[i as int].score.bits < (
                    #[trigger] next[j]).score.bits by {
                        assert(seen[w as int].score.bits <= seen[j].score.bits);
                    }
                }
                w = i;
            } else {
                proof {
                    assert forall|j: int| 0 <= j < next.len() implies next[w as int].score.bits <= (
                    #[trigger] next[j]).score.bits by {
                        if j < i {
                            assert(seen[w as int].score.bits <= seen[j].score.bits);
                        }
                    }
                    assert forall|j: int| 0 <= j < w implies next[w as int].score.bits < (
                    #[trigger] next[j]).score.bits by {
                        assert(seen[w as int].score.bits < seen[j].score.bits);
                    }
                }
            }
            i = i + 1;
        }
        proof {
            assert(slots@.take(slots.len() as int) == slots@);
            lemma_weakest_unique(slots@, w as int);
        }
        if slots[w].score.bits < candidate.score.bits {
            slots.set(w, candidate);
        }
    }
}

/// Ranks what the buffer holds, best first.
pub fn rank(slots: &Vec<Candidate>) -> (best: Vec<Candidate>)
    ensures
        best@ == ranked(slots@),
{
    let mut best: Vec<Candidate> = Vec::new();
    let mut i: usize = 0;
    while i < slots.len()
        invariant
            i <= slots.len(),
            best@ == ranked(slots@.take(i as int)),
        decreases slots.len() - i,
    {
        let candidate = slots[i];
        let mut at: usize = best.len();
        assert(best@.take(at as int) == best@);
        while at > 0 && best[at - 1].score.bits < candidate.score.bits
            invariant
                at <= best.len(),
                standing(best@, candidate) == standing(best@.take(at as int), candidate),
            decreases at,
        {
            assert(best@.take(at as int).drop_last() == best@.take(at - 1));
            at = at - 1;
        }
        assert(slots@.take(i + 1).drop_last() == slots@.take(i as int));
        best.insert(at, candidate);
        i = i + 1;
    }
    assert(slots@.take(slots.len() as int) == slots@);
    best
}

/// Selects the candidates that are kept of `scores`, best first.
pub fn select(scores: &Vec<Score>) -> (best: Vec<Candidate>)
    ensures
        best@ == selected(scores@),
{
    let mut slots: Vec<Candidate> = Vec::new();
    let mut i: usize = 0;
    while i < scores.len()
        invariant
            i <= scores.len(),
            slots@ == gathered(scores@.take(i as int)),
        decreases scores.len() - i,
    {
        assert(scores@.take(i + 1).drop_last() == scores@.take(i as int));
        offer(&mut slots, Candidate { index: i, score: scores[i] });
        i = i + 1;
    }
    assert(scores@.take(scores.len() as int) == scores@);
    rank(&slots)
}

} // verus!
