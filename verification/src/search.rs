//! The search: the sources, the choices they are matched against, and the
//! metric. Every source carries its candidates among the choices. They are
//! computed when the source comes in, and computed anew for every source
//! whenever the choices or the metric change.

use std::path::PathBuf;
use vstd::prelude::*;
use vstd::seq_lib::group_to_multiset_ensures;
use crate::entry::{file_views, FilePath, FileView};
use crate::metric::{length_fits, SearchAlgorithm};
use crate::name::name_le;
use crate::order::{
    in_name_order, lemma_in_name_order, lemma_rearranged_map, sort_by_name, sorted_by_name,
};
use crate::ranking::{descending, is_selection, lemma_selected};
use crate::score::Score;
use crate::source::{
    all_wf, candidates_of, lemma_all_comparable, scores_against, source_views, Override,
    SourceName, SourceView,
};

verus! {

/// The sources, the choices and the metric.
#[derive(Debug, PartialEq, Eq)]
pub struct FuzzySearch {
    pub source_names: Vec<SourceName>,
    pub choice_names: Vec<FilePath>,
    pub algorithm: SearchAlgorithm,
}

/// What a search is to the library: its sources and its choices, each in
/// their order, and the metric.
pub struct SearchView {
    pub sources: Seq<SourceView>,
    pub choices: Seq<FileView>,
    pub algorithm: SearchAlgorithm,
}

impl View for FuzzySearch {
    type V = SearchView;

    open spec fn view(&self) -> SearchView {
        SearchView {
            sources: source_views(self.source_names@),
            choices: file_views(self.choice_names@),
            algorithm: self.algorithm,
        }
    }
}

/// What computing the candidates anew leaves of a source: its file and what
/// the user decided.
pub open spec fn kept(source: SourceView) -> (FileView, Override) {
    (source.file, source.decision)
}

/// What computing the candidates anew leaves of each of `sources`.
pub open spec fn kept_of(sources: Seq<SourceView>) -> Seq<(FileView, Override)> {
    sources.map_values(|source: SourceView| kept(source))
}

/// `sources`, each with the candidates that `choices` and `algorithm` give it.
pub open spec fn recomputed(
    sources: Seq<SourceView>,
    choices: Seq<FileView>,
    algorithm: SearchAlgorithm,
) -> Seq<SourceView> {
    sources.map_values(
        |source: SourceView|
            SourceView {
                candidates: candidates_of(source.file.name, choices, algorithm),
                ..source
            },
    )
}

/// Those of `files` whose names are short enough to be compared, in their
/// order.
pub open spec fn fitting(files: Seq<FileView>) -> Seq<FileView>
    decreases files.len(),
{
    if files.len() == 0 {
        Seq::empty()
    } else if files.last().wf() {
        fitting(files.drop_last()).push(files.last())
    } else {
        fitting(files.drop_last())
    }
}

impl SearchView {
    /// Whether every name is short enough to be compared.
    pub open spec fn wf(self) -> bool {
        &&& all_wf(self.choices)
        &&& forall|i: int| 0 <= i < self.sources.len() ==> (#[trigger] self.sources[i]).file.wf()
    }

    /// Whether the candidates of every source are those that the choices and
    /// the metric give it now.
    pub open spec fn is_current(self) -> bool {
        forall|i: int|
            0 <= i < self.sources.len() ==> (#[trigger] self.sources[i]).is_current(
                self.choices,
                self.algorithm,
            )
    }

    /// The search with its candidates computed anew: the sources in the order
    /// of their names, each with the candidates that the choices and the
    /// metric give it.
    pub open spec fn refreshed(self) -> SearchView {
        SearchView {
            sources: recomputed(in_name_order(self.sources), self.choices, self.algorithm),
            ..self
        }
    }
}

/// Computing the candidates anew changes nothing but the candidates and the
/// order of the sources: the choices and the metric stay, the sources are as
/// many as before, with the same files and the same decisions, and in the
/// order of their names; and each has the candidates that the choices and
/// the metric give it.
pub proof fn lemma_refreshed(search: SearchView)
    ensures
        search.refreshed().choices == search.choices,
        search.refreshed().algorithm == search.algorithm,
        search.refreshed().sources.len() == search.sources.len(),
        kept_of(search.refreshed().sources).to_multiset() == kept_of(
            search.sources,
        ).to_multiset(),
        sorted_by_name(search.refreshed().sources),
        forall|i: int|
            0 <= i < search.refreshed().sources.len() ==> (
            #[trigger] search.refreshed().sources[i]).candidates == candidates_of(
                search.refreshed().sources[i].file.name,
                search.choices,
                search.algorithm,
            ),
{
    let ordered = in_name_order(search.sources);
    let after = search.refreshed().sources;
    lemma_in_name_order(search.sources);
    lemma_rearranged_map(ordered, search.sources, |source: SourceView| kept(source));
    assert(kept_of(after) =~= kept_of(ordered));
    assert forall|a: int, b: int| 0 <= a < b < after.len() implies name_le(
        (#[trigger] after[a]).file.name,
        (#[trigger] after[b]).file.name,
    ) by {
        assert(name_le(ordered[a].file.name, ordered[b].file.name));
    }
}

impl FuzzySearch {
    /// A search without sources or choices, by the Jaro metric.
    pub fn new() -> (search: FuzzySearch)
        ensures
            search@ == (SearchView {
                sources: Seq::empty(),
                choices: Seq::empty(),
                algorithm: SearchAlgorithm::Jaro,
            }),
    {
        let search = FuzzySearch {
            source_names: Vec::new(),
            choice_names: Vec::new(),
            algorithm: SearchAlgorithm::Jaro,
        };
        assert(search@.sources =~= Seq::empty());
        assert(search@.choices =~= Seq::empty());
        search
    }

    /// Adds a source for `file` behind the others, with its candidates among
    /// the choices and nothing decided. The other sources stay as they are.
    pub fn add_source(&mut self, file: FilePath)
        requires
            old(self)@.wf(),
            file@.wf(),
        ensures
            final(self)@ == (SearchView {
                sources: old(self)@.sources.push(
                    SourceView {
                        file: file@,
                        candidates: candidates_of(
                            file@.name,
                            old(self)@.choices,
                            old(self)@.algorithm,
                        ),
                        decision: Override::Unset,
                    },
                ),
                ..old(self)@
            }),
            final(self)@.wf(),
            old(self)@.is_current() ==> final(self)@.is_current(),
    {
        let mut source = SourceName::new(file);
        proof {
            lemma_all_comparable(source@.file, self@.choices, self.algorithm);
        }
        source.update_choices(&self.choice_names, &self.algorithm);
        self.source_names.push(source);
        assert(self@.sources =~= old(self)@.sources.push(source@));
    }

    /// Adds a source for the file at `path`, whose name was read as `name`,
    /// as `add_source` does, and says whether it did. A file whose name could
    /// not be read, or is too long to be compared, is passed over, and
    /// nothing changes.
    pub fn try_add_source(&mut self, name: Option<String>, path: PathBuf) -> (taken: bool)
        requires
            old(self)@.wf(),
        ensures
            taken == (name matches Some(name) && length_fits(name@.len())),
            final(self)@ == if taken {
                (SearchView {
                    sources: old(self)@.sources.push(
                        SourceView {
                            file: FileView { name: name->0@, path },
                            candidates: candidates_of(
                                name->0@,
                                old(self)@.choices,
                                old(self)@.algorithm,
                            ),
                            decision: Override::Unset,
                        },
                    ),
                    ..old(self)@
                })
            } else {
                old(self)@
            },
            final(self)@.wf(),
            old(self)@.is_current() ==> final(self)@.is_current(),
    {
        match FilePath::try_from(name, path) {
            Ok(file) => if file.fits() {
                self.add_source(file);
                true
            } else {
                false
            },
            Err(_) => false,
        }
    }

    /// Computes the candidates of every source anew, after the sources were
    /// put in the order of their names, sources of one name staying in the
    /// order they have. Apart from their candidates the sources are the same
    /// as before, and so are the choices and the metric.
    pub fn update_all(&mut self)
        requires
            old(self)@.wf(),
        ensures
            final(self)@ == old(self)@.refreshed(),
            final(self)@.sources.len() == old(self)@.sources.len(),
            final(self)@.wf(),
            final(self)@.is_current(),
    {
        sort_by_name(&mut self.source_names);
        let ghost ordered = in_name_order(old(self)@.sources);
        let ghost goal = recomputed(ordered, self@.choices, self.algorithm);
        proof {
            broadcast use group_to_multiset_ensures;

            lemma_in_name_order(old(self)@.sources);
            ordered.to_multiset_ensures();
            old(self)@.sources.to_multiset_ensures();
            assert forall|j: int| 0 <= j < ordered.len() implies (
            #[trigger] ordered[j]).file.wf() by {
                assert(ordered.contains(ordered[j]));
                assert(ordered.to_multiset().count(ordered[j]) > 0);
                assert(old(self)@.sources.to_multiset().count(ordered[j]) > 0);
                assert(old(self)@.sources.contains(ordered[j]));
            }
        }
        let mut i: usize = 0;
        while i < self.source_names.len()
            invariant
                i <= self.source_names@.len(),
                self.choice_names == old(self).choice_names,
                self.algorithm == old(self).algorithm,
                all_wf(self@.choices),
                self.source_names@.len() == ordered.len(),
                goal == recomputed(ordered, self@.choices, self.algorithm),
                forall|j: int| 0 <= j < ordered.len() ==> (#[trigger] ordered[j]).file.wf(),
                forall|j: int| 0 <= j < i ==> (#[trigger] self.source_names@[j])@ == goal[j],
                forall|j: int|
                    0 <= j < i ==> (#[trigger] self.source_names@[j])@.is_current(
                        self@.choices,
                        self.algorithm,
                    ),
                forall|j: int|
                    i <= j < ordered.len() ==> (#[trigger] self.source_names@[j])@ == ordered[j],
            decreases self.source_names@.len() - i,
        {
            let ghost before = self.source_names@;
            proof {
                assert(before[i as int]@ == ordered[i as int]);
                lemma_all_comparable(ordered[i as int].file, self@.choices, self.algorithm);
            }
            self.source_names[i].update_choices(&self.choice_names, &self.algorithm);
            assert forall|j: int| 0 <= j < i + 1 implies (#[trigger] self.source_names@[j])@
                == goal[j] && self.source_names@[j]@.is_current(
                self@.choices,
                self.algorithm,
            ) by {
                if j < i {
                    assert(self.source_names@[j] == before[j]);
                }
            }
            assert forall|j: int| i + 1 <= j < ordered.len() implies (
            #[trigger] self.source_names@[j])@ == ordered[j] by {
                assert(self.source_names@[j] == before[j]);
            }
            i = i + 1;
        }
        proof {
            assert(self@.sources =~= goal);
            assert(self@.choices == old(self)@.choices);
            assert forall|j: int| 0 <= j < self@.sources.len() implies (
            #[trigger] self@.sources[j]).file.wf() by {
                assert(goal[j].file == ordered[j].file);
            }
            assert forall|j: int| 0 <= j < self@.sources.len() implies (
            #[trigger] self@.sources[j]).is_current(self@.choices, self@.algorithm) by {
                assert(self.source_names@[j]@.is_current(self@.choices, self.algorithm));
            }
        }
    }

    /// Adds `file` behind the other choices and computes the candidates of
    /// every source anew.
    pub fn add_choice(&mut self, file: FilePath)
        requires
            old(self)@.wf(),
            file@.wf(),
        ensures
            final(self)@ == (SearchView {
                choices: old(self)@.choices.push(file@),
                ..old(self)@
            }).refreshed(),
            final(self)@.sources.len() == old(self)@.sources.len(),
            final(self)@.wf(),
            final(self)@.is_current(),
    {
        self.choice_names.push(file);
        assert(self@.choices =~= old(self)@.choices.push(file@));
        self.update_all();
    }

    /// Adds `files` behind the other choices, in their order, and computes the
    /// candidates of every source anew, once. Without files nothing changes.
    pub fn add_choices(&mut self, files: Vec<FilePath>)
        requires
            old(self)@.wf(),
            all_wf(file_views(files@)),
        ensures
            final(self)@ == if files@.len() > 0 {
                (SearchView {
                    choices: old(self)@.choices + file_views(files@),
                    ..old(self)@
                }).refreshed()
            } else {
                old(self)@
            },
            final(self)@.sources.len() == old(self)@.sources.len(),
            final(self)@.wf(),
            old(self)@.is_current() ==> final(self)@.is_current(),
    {
        let mut files = files;
        let ghost added = file_views(files@);
        if files.len() > 0 {
            self.choice_names.append(&mut files);
            assert(self@.choices =~= old(self)@.choices + added);
            assert forall|i: int| 0 <= i < self@.choices.len() implies (
            #[trigger] self@.choices[i]).wf() by {
                if i < old(self)@.choices.len() {
                    assert(old(self)@.choices[i].wf());
                } else {
                    assert(added[i - old(self)@.choices.len()].wf());
                }
            }
            self.update_all();
        }
    }

    /// Adds those of `files` whose names are short enough to be compared, as
    /// `add_choices` does, and says how many they were. The others are passed
    /// over.
    pub fn try_add_choices(&mut self, files: Vec<FilePath>) -> (taken: usize)
        requires
            old(self)@.wf(),
        ensures
            taken == fitting(file_views(files@)).len(),
            final(self)@ == if taken > 0 {
                (SearchView {
                    choices: old(self)@.choices + fitting(file_views(files@)),
                    ..old(self)@
                }).refreshed()
            } else {
                old(self)@
            },
            final(self)@.sources.len() == old(self)@.sources.len(),
            final(self)@.wf(),
            old(self)@.is_current() ==> final(self)@.is_current(),
    {
        let ghost given = file_views(files@);
        let mut files = files;
        // the files, last first
        let mut stack: Vec<FilePath> = Vec::new();
        while files.len() > 0
            invariant
                files@.len() + stack@.len() == given.len(),
                file_views(files@) == given.take(files@.len() as int),
                forall|t: int|
                    0 <= t < stack@.len() ==> (#[trigger] stack@[t])@ == given[given.len() - 1
                        - t],
            decreases files@.len(),
        {
            let ghost before = files@;
            let file = files.pop().unwrap();
            assert(file@ == file_views(before)[before.len() - 1]);
            assert(file_views(files@) =~= given.take(files@.len() as int));
            stack.push(file);
        }
        let mut kept: Vec<FilePath> = Vec::new();
        let ghost mut seen: int = 0;
        assert(file_views(kept@) =~= fitting(given.take(0)));
        while stack.len() > 0
            invariant
                0 <= seen,
                seen + stack@.len() == given.len(),
                file_views(kept@) == fitting(given.take(seen)),
                all_wf(file_views(kept@)),
                forall|t: int|
                    0 <= t < stack@.len() ==> (#[trigger] stack@[t])@ == given[given.len() - 1
                        - t],
            decreases stack@.len(),
        {
            let ghost before = kept@;
            let file = stack.pop().unwrap();
            assert(file@ == given[seen]);
            assert(given.take(seen + 1).drop_last() == given.take(seen));
            if file.fits() {
                kept.push(file);
                assert(file_views(kept@) =~= file_views(before).push(file@));
            }
            proof {
                seen = seen + 1;
            }
        }
        assert(given.take(given.len() as int) == given);
        let taken = kept.len();
        self.add_choices(kept);
        taken
    }

    /// Removes the source at place `index`. The sources before it stay where
    /// they are and those behind it move up by one; none of them changes.
    /// Where no source is at that place, nothing changes.
    pub fn remove_source(&mut self, index: usize)
        ensures
            final(self)@ == if index < old(self)@.sources.len() {
                (SearchView { sources: old(self)@.sources.remove(index as int), ..old(self)@ })
            } else {
                old(self)@
            },
            index < old(self)@.sources.len() ==> final(self)@.sources.len() == old(
                self,
            )@.sources.len() - 1,
            forall|j: int|
                0 <= j < index && j < final(self)@.sources.len() ==> (
                #[trigger] final(self)@.sources[j]) == old(self)@.sources[j],
            forall|j: int|
                index <= j < final(self)@.sources.len() ==> (#[trigger] final(self)@.sources[j])
                    == old(self)@.sources[j + 1],
            old(self)@.wf() ==> final(self)@.wf(),
            old(self)@.is_current() ==> final(self)@.is_current(),
    {
        if index < self.source_names.len() {
            self.source_names.remove(index);
            assert(self@.sources =~= old(self)@.sources.remove(index as int));
            assert forall|j: int| 0 <= j < self@.sources.len() implies (
            #[trigger] self@.sources[j]) == old(self)@.sources[if j < index {
                j
            } else {
                j + 1
            }] by {}
        }
    }

    /// Removes every source.
    pub fn clear_sources(&mut self)
        ensures
            final(self)@ == (SearchView { sources: Seq::empty(), ..old(self)@ }),
            old(self)@.wf() ==> final(self)@.wf(),
            final(self)@.is_current(),
    {
        self.source_names.clear();
        assert(self@.sources =~= Seq::empty());
    }

    /// Removes every choice and computes the candidates of every source anew:
    /// no source has a candidate after it.
    pub fn clear_choices(&mut self)
        requires
            old(self)@.wf(),
        ensures
            final(self)@ == (SearchView { choices: Seq::empty(), ..old(self)@ }).refreshed(),
            final(self)@.sources.len() == old(self)@.sources.len(),
            final(self)@.is_current(),
            forall|i: int|
                0 <= i < final(self)@.sources.len() ==> (
                #[trigger] final(self)@.sources[i]).candidates.len() == 0,
            final(self)@.wf(),
    {
        self.choice_names.clear();
        assert(self@.choices =~= Seq::empty());
        self.update_all();
        proof {
            assert forall|i: int| 0 <= i < self@.sources.len() implies (
            #[trigger] self@.sources[i]).candidates.len() == 0 by {
                let source = self@.sources[i];
                assert(source.is_current(self@.choices, self.algorithm));
                assert(scores_against(source.file.name, self@.choices, self.algorithm)
                    =~= Seq::<Score>::empty());
            }
        }
    }

    /// Changes the metric and computes the candidates of every source anew.
    pub fn set_metric(&mut self, algorithm: SearchAlgorithm)
        requires
            old(self)@.wf(),
        ensures
            final(self)@ == (SearchView { algorithm, ..old(self)@ }).refreshed(),
            final(self)@.algorithm == algorithm,
            final(self)@.choices == old(self)@.choices,
            final(self)@.sources.len() == old(self)@.sources.len(),
            final(self)@.wf(),
            final(self)@.is_current(),
    {
        self.algorithm = algorithm;
        self.update_all();
    }

    /// Records what the user decided for the source at place `source`: the
    /// choice at place `choice`, or with `None` that the source has no match.
    /// Nothing else changes, and nothing at all where no source is at that
    /// place.
    pub fn set_override(&mut self, source: usize, choice: Option<usize>)
        ensures
            final(self)@ == if source < old(self)@.sources.len() {
                (SearchView {
                    sources: old(self)@.sources.update(
                        source as int,
                        SourceView {
                            decision: match choice {
                                Some(index) => Override::Choice(index),
                                None => Override::NoMatch,
                            },
                            ..old(self)@.sources[source as int]
                        },
                    ),
                    ..old(self)@
                })
            } else {
                old(self)@
            },
            old(self)@.wf() ==> final(self)@.wf(),
            old(self)@.is_current() ==> final(self)@.is_current(),
    {
        if source < self.source_names.len() {
            self.source_names[source].set_choice(choice);
            assert(self@.sources =~= old(self)@.sources.update(
                source as int,
                self.source_names@[source as int]@,
            ));
            assert forall|j: int| 0 <= j < self@.sources.len() implies (
            #[trigger] self@.sources[j]).file == old(self)@.sources[j].file
                && self@.sources[j].candidates == old(self)@.sources[j].candidates by {}
        }
    }

    /// Takes back what the user decided for the source at place `source`.
    /// Nothing else changes, and nothing at all where no source is at that
    /// place.
    pub fn reset_override(&mut self, source: usize)
        ensures
            final(self)@ == if source < old(self)@.sources.len() {
                (SearchView {
                    sources: old(self)@.sources.update(
                        source as int,
                        SourceView {
                            decision: Override::Unset,
                            ..old(self)@.sources[source as int]
                        },
                    ),
                    ..old(self)@
                })
            } else {
                old(self)@
            },
            old(self)@.wf() ==> final(self)@.wf(),
            old(self)@.is_current() ==> final(self)@.is_current(),
    {
        if source < self.source_names.len() {
            self.source_names[source].reset_choice();
            assert(self@.sources =~= old(self)@.sources.update(
                source as int,
                self.source_names@[source as int]@,
            ));
            assert forall|j: int| 0 <= j < self@.sources.len() implies (
            #[trigger] self@.sources[j]).file == old(self)@.sources[j].file
                && self@.sources[j].candidates == old(self)@.sources[j].candidates by {}
        }
    }
}

/// Every source of a search whose candidates are as the choices and the metric
/// give them has a selection of the best of its scores against the choices:
/// as many candidates as there are choices, up to `CHOICE_PREVIEW_COUNT`,
/// each with the score of its choice, a number from zero to one; none left
/// out that scores higher than one that was kept; the best first.
pub proof fn lemma_current_candidates(search: SearchView, i: int)
    requires
        search.is_current(),
        0 <= i < search.sources.len(),
        search.choices.len() <= usize::MAX,
    ensures
        is_selection(
            search.sources[i].candidates,
            scores_against(search.sources[i].file.name, search.choices, search.algorithm),
        ),
        descending(search.sources[i].candidates),
        forall|k: int|
            0 <= k < search.sources[i].candidates.len() ==> (
            #[trigger] search.sources[i].candidates[k]).score.in_unit(),
{
    let source = search.sources[i];
    assert(source.is_current(search.choices, search.algorithm));
    lemma_selected(scores_against(source.file.name, search.choices, search.algorithm));
}

impl Default for FuzzySearch {
    /// A search without sources or choices, by the Jaro metric.
    fn default() -> (search: FuzzySearch)
        ensures
            search@ == (SearchView {
                sources: Seq::empty(),
                choices: Seq::empty(),
                algorithm: SearchAlgorithm::Jaro,
            }),
    {
        FuzzySearch::new()
    }
}

} // verus!
