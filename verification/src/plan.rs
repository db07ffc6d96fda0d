//! The plan: which files are to be copied or renamed, and to what names.
//!
//! The plan goes through the sources in their order. A source with an
//! accepted match gives one item: the new name, and the path of the file that
//! is to get it, which is the choice where the choices are copied and the
//! source where the sources are. A source without one gives an item only
//! where the sources are copied and those without a match are asked for: its
//! own path and its own name. Two items may have the same name: the plan does
//! not look for that.
//!
//! The threshold may be any number. Below one that is negative there is no
//! score, so at such a threshold every match that has a choice is accepted.

use std::path::PathBuf;
use vstd::prelude::*;
use crate::entry::FileView;
use crate::rename::{resolve, resolved, SideToUse};
use crate::score::{Score, INFINITY_BITS};
use crate::search::FuzzySearch;
use crate::source::{Override, SourceView};

verus! {

/// What the plan holds for `source`: the path to copy from and the new name,
/// or nothing.
pub open spec fn planned(
    source: SourceView,
    choices: Seq<FileView>,
    threshold: Score,
    include_unmatched: bool,
    side: SideToUse,
    keep_extension: bool,
) -> Option<(PathBuf, Seq<char>)> {
    match source.accepted(choices, threshold) {
        Some(index) => Some(
            (
                match side {
                    SideToUse::Choices => choices[index as int].path,
                    SideToUse::Sources => source.file.path,
                },
                resolved(source.file.name, choices[index as int].name, keep_extension, side),
            ),
        ),
        None => if include_unmatched && side == SideToUse::Sources {
            Some((source.file.path, source.file.name))
        } else {
            None
        },
    }
}

/// The plan for `sources`: what the plan holds for each, in their order.
pub open spec fn plan_of(
    sources: Seq<SourceView>,
    choices: Seq<FileView>,
    threshold: Score,
    include_unmatched: bool,
    side: SideToUse,
    keep_extension: bool,
) -> Seq<(PathBuf, Seq<char>)>
    decreases sources.len(),
{
    if sources.len() == 0 {
        Seq::empty()
    } else {
        let front = plan_of(
            sources.drop_last(),
            choices,
            threshold,
            include_unmatched,
            side,
            keep_extension,
        );
        match planned(sources.last(), choices, threshold, include_unmatched, side, keep_extension) {
            Some(item) => front.push(item),
            None => front,
        }
    }
}

/// The items of a plan as values: each path with its new name.
pub open spec fn plan_view(plan: Seq<(&PathBuf, String)>) -> Seq<(PathBuf, Seq<char>)> {
    plan.map_values(|item: (&PathBuf, String)| (*item.0, item.1@))
}

impl FuzzySearch {
    /// Builds the plan. `threshold` is the least score at which a match that
    /// the user did not decide is accepted. With `include_unmatched`, and
    /// where the sources are the side that is copied, a source without an
    /// accepted match is in the plan under its own name.
    pub fn build_plan(
        &self,
        threshold: Score,
        include_unmatched: bool,
        side: SideToUse,
        keep_extension: bool,
    ) -> (plan: Vec<(&PathBuf, String)>)
        ensures
            plan_view(plan@) == plan_of(
                self@.sources,
                self@.choices,
                threshold,
                include_unmatched,
                side,
                keep_extension,
            ),
    {
        let mut plan: Vec<(&PathBuf, String)> = Vec::new();
        let mut i: usize = 0;
        assert(self@.sources.take(0) == Seq::<SourceView>::empty());
        assert(plan_view(plan@) == Seq::<(PathBuf, Seq<char>)>::empty());
        while i < self.source_names.len()
            invariant
                i <= self.source_names@.len(),
                plan_view(plan@) == plan_of(
                    self@.sources.take(i as int),
                    self@.choices,
                    threshold,
                    include_unmatched,
                    side,
                    keep_extension,
                ),
            decreases self.source_names@.len() - i,
        {
            let source = &self.source_names[i];
            let ghost before = plan@;
            assert(self@.sources.take(i + 1).drop_last() == self@.sources.take(i as int));
            assert(self@.sources.take(i + 1).last() == source@);
            match source.accepted_choice(&self.choice_names, threshold) {
                Some(index) => {
                    let choice = &self.choice_names[index];
                    assert(self@.choices[index as int] == choice@);
                    let name = resolve(
                        source.file.name.as_str(),
                        choice.name.as_str(),
                        keep_extension,
                        side,
                    );
                    let path = match side {
                        SideToUse::Choices => &choice.path,
                        SideToUse::Sources => &source.file.path,
                    };
                    plan.push((path, name));
                    assert(plan_view(plan@) == plan_view(before).push((*path, name@)));
                },
                None => {
                    if include_unmatched && side == SideToUse::Sources {
                        let name = source.file.name.clone();
                        plan.push((&source.file.path, name));
                        assert(plan_view(plan@) == plan_view(before).push(
                            (source.file.path, name@),
                        ));
                    }
                },
            }
            i = i + 1;
        }
        assert(self@.sources.take(self@.sources.len() as int) == self@.sources);
        plan
    }
}

/// No source is in the plan twice: the plan has at most as many items as there
/// are sources. Where the sources are copied and those without a match are
/// asked for, it has one for each.
pub proof fn lemma_plan_len(
    sources: Seq<SourceView>,
    choices: Seq<FileView>,
    threshold: Score,
    include_unmatched: bool,
    side: SideToUse,
    keep_extension: bool,
)
    ensures
        plan_of(sources, choices, threshold, include_unmatched, side, keep_extension).len()
            <= sources.len(),
        include_unmatched && side == SideToUse::Sources ==> plan_of(
            sources,
            choices,
            threshold,
            include_unmatched,
            side,
            keep_extension,
        ).len() == sources.len(),
    decreases sources.len(),
{
    if sources.len() > 0 {
        lemma_plan_len(
            sources.drop_last(),
            choices,
            threshold,
            include_unmatched,
            side,
            keep_extension,
        );
    }
}

/// A source for which the user decided nothing and whose best score is below
/// the threshold is not in the plan, unless the sources are copied and those
/// without a match are asked for: then it is in the plan with its own path
/// and its own name.
pub proof fn lemma_below_threshold(
    source: SourceView,
    choices: Seq<FileView>,
    threshold: Score,
    include_unmatched: bool,
    side: SideToUse,
    keep_extension: bool,
)
    requires
        source.decision == Override::Unset,
        source.score() matches Some(score) && score.below(threshold),
    ensures
        planned(source, choices, threshold, include_unmatched, side, keep_extension) == (if
            include_unmatched && side == SideToUse::Sources {
            Some((source.file.path, source.file.name))
        } else {
            None
        }),
{
}

/// At a threshold that stands for a negative number or for no number, every
/// source whose match
/// is one of the choices is in the plan under the name that this choice gives
/// it, whatever its score.
pub proof fn lemma_negative_threshold(
    source: SourceView,
    choices: Seq<FileView>,
    threshold: Score,
    include_unmatched: bool,
    side: SideToUse,
    keep_extension: bool,
    index: usize,
)
    requires
        threshold.bits > INFINITY_BITS,
        source.choice() == Some(index),
        index < choices.len(),
    ensures
        source.accepted(choices, threshold) == Some(index),
        planned(source, choices, threshold, include_unmatched, side, keep_extension) matches Some(
            item,
        ) && item.1 == resolved(source.file.name, choices[index as int].name, keep_extension, side),
{
}

/// What the user decided is accepted whatever the threshold: a source that
/// the user matched with one of the choices is in the plan under the name
/// that this choice gives it.
pub proof fn lemma_override_accepted(
    source: SourceView,
    choices: Seq<FileView>,
    threshold: Score,
    include_unmatched: bool,
    side: SideToUse,
    keep_extension: bool,
    index: usize,
)
    requires
        source.decision == Override::Choice(index),
        index < choices.len(),
    ensures
        source.score() is None,
        source.accepted(choices, threshold) == Some(index),
        planned(source, choices, threshold, include_unmatched, side, keep_extension) matches Some(
            item,
        ) && item.1 == resolved(source.file.name, choices[index as int].name, keep_extension, side),
{
}

} // verus!
