//! Sources: the files that are to be matched, each with its candidates among
//! the choices and with what the user decided about its match.

use std::path::PathBuf;
use vstd::prelude::*;
use crate::entry::{file_views, FilePath, FileView};
use crate::metric::SearchAlgorithm;
use crate::name::{lemma_strip_extension_len, remove_extension, strip_extension};
use crate::ranking::{
    descending, gathered, is_selection, lemma_selected, lemma_selected_in_unit, offer, rank,
    selected, Candidate,
};
use crate::score::{Score, ZERO_BITS};

verus! {

/// What the user decided about the match of a source.
#[derive(Clone, Copy, Debug, PartialEq, Eq, Structural)]
pub enum Override {
    /// Nothing: the best candidate is the match.
    Unset,
    /// The choice at this place is the match.
    Choice(usize),
    /// The source has no match.
    NoMatch,
}

/// The score of each of `choices` against `name`, by base names.
pub open spec fn scores_against(
    name: Seq<char>,
    choices: Seq<FileView>,
    algorithm: SearchAlgorithm,
) -> Seq<Score> {
    Seq::new(
        choices.len(),
        |i: int| algorithm.similarity(strip_extension(name), strip_extension(choices[i].name)),
    )
}

/// The candidates of a source called `name` among `choices`, best first.
pub open spec fn candidates_of(
    name: Seq<char>,
    choices: Seq<FileView>,
    algorithm: SearchAlgorithm,
) -> Seq<Candidate> {
    selected(scores_against(name, choices, algorithm))
}

/// Whether every one of `files` is well formed.
pub open spec fn all_wf(files: Seq<FileView>) -> bool {
    forall|i: int| 0 <= i < files.len() ==> (#[trigger] files[i]).wf()
}

/// Whether `algorithm` can be computed on this machine for `name` and each of
/// `choices`, by base names.
pub open spec fn all_comparable(
    name: Seq<char>,
    choices: Seq<FileView>,
    algorithm: SearchAlgorithm,
) -> bool {
    forall|i: int|
        0 <= i < choices.len() ==> algorithm.comparable(
            strip_extension(name),
            strip_extension((#[trigger] choices[i]).name),
        )
}

/// Every metric can be computed for well-formed files.
pub proof fn lemma_all_comparable(
    file: FileView,
    choices: Seq<FileView>,
    algorithm: SearchAlgorithm,
)
    requires
        file.wf(),
        all_wf(choices),
    ensures
        all_comparable(file.name, choices, algorithm),
{
    assert forall|i: int| 0 <= i < choices.len() implies algorithm.comparable(
        strip_extension(file.name),
        strip_extension((#[trigger] choices[i]).name),
    ) by {
        assert(choices[i].wf());
        lemma_strip_extension_len(file.name);
        lemma_strip_extension_len(choices[i].name);
        algorithm.lemma_comparable(
            strip_extension(file.name),
            strip_extension(choices[i].name),
            file.name.len(),
            choices[i].name.len(),
        );
    }
}

/// A source.
#[derive(Debug, PartialEq, Eq)]
pub struct SourceName {
    pub file: FilePath,
    /// The candidates, best first, as of the last time they were computed.
    pub choice_map: Vec<Candidate>,
    pub manual_choice: Override,
}

/// What a source is to the library: its file, its candidates, best first,
/// and what the user decided.
pub struct SourceView {
    pub file: FileView,
    pub candidates: Seq<Candidate>,
    pub decision: Override,
}

impl View for SourceName {
    type V = SourceView;

    open spec fn view(&self) -> SourceView {
        SourceView {
            file: self.file@,
            candidates: self.choice_map@,
            decision: self.manual_choice,
        }
    }
}

/// What each of `sources` is to the library.
pub open spec fn source_views(sources: Seq<SourceName>) -> Seq<SourceView> {
    sources.map_values(|source: SourceName| source@)
}

impl SourceView {
    /// The match of the source: what the user decided, or else the best
    /// candidate, if there is one.
    pub open spec fn choice(self) -> Option<usize> {
        match self.decision {
            Override::Choice(index) => Some(index),
            Override::NoMatch => None,
            Override::Unset => if self.candidates.len() > 0 {
                Some(self.candidates[0].index)
            } else {
                None
            },
        }
    }

    /// The score of the match. There is one only where the user decided
    /// nothing: it is that of the best candidate, and zero without candidates.
    pub open spec fn score(self) -> Option<Score> {
        match self.decision {
            Override::Unset => if self.candidates.len() > 0 {
                Some(self.candidates[0].score)
            } else {
                Some(Score { bits: ZERO_BITS })
            },
            _ => None,
        }
    }

    /// Whether the candidates are those that `choices` and `algorithm` give
    /// the source, each with a score from zero to one.
    pub open spec fn is_current(self, choices: Seq<FileView>, algorithm: SearchAlgorithm) -> bool {
        &&& self.candidates == candidates_of(self.file.name, choices, algorithm)
        &&& forall|k: int|
            0 <= k < self.candidates.len() ==> (#[trigger] self.candidates[k]).score.in_unit()
    }

    /// The match of the source where it is accepted: it has to be the place
    /// of one of `choices`; and where the user decided nothing, its score
    /// must not be below `threshold`. What the user decided is accepted
    /// whatever its score would be, and any score is accepted at a threshold
    /// that stands for a negative number.
    pub open spec fn accepted(self, choices: Seq<FileView>, threshold: Score) -> Option<usize> {
        match self.choice() {
            Some(index) => if index < choices.len() && !(self.score() matches Some(score)
                && score.below(threshold)) {
                Some(index)
            } else {
                None
            },
            None => None,
        }
    }
}

impl SourceName {
    /// A source for `file`, with no candidates yet and nothing decided.
    pub fn new(file: FilePath) -> (source: SourceName)
        ensures
            source@ == (SourceView {
                file: file@,
                candidates: Seq::empty(),
                decision: Override::Unset,
            }),
    {
        SourceName { file, choice_map: Vec::new(), manual_choice: Override::Unset }
    }

    /// A source for the file at `path`, whose name was read as `name`, with no
    /// candidates yet and nothing decided. A file whose name could not be
    /// read has none.
    pub fn try_from(name: Option<String>, path: PathBuf) -> (source: Result<SourceName, ()>)
        ensures
            match source {
                Ok(source) => name matches Some(name) && source@ == (SourceView {
                    file: FileView { name: name@, path },
                    candidates: Seq::empty(),
                    decision: Override::Unset,
                }),
                Err(_) => name is None,
            },
    {
        match FilePath::try_from(name, path) {
            Ok(file) => Ok(SourceName::new(file)),
            Err(error) => Err(error),
        }
    }

    /// Takes back what the user decided.
    pub fn reset_choice(&mut self)
        ensures
            final(self)@ == (SourceView { decision: Override::Unset, ..old(self)@ }),
    {
        self.manual_choice = Override::Unset;
    }

    /// Records what the user decided: the choice at place `index`, or with
    /// `None` that the source has no match.
    pub fn set_choice(&mut self, index: Option<usize>)
        ensures
            final(self)@ == (SourceView {
                decision: match index {
                    Some(index) => Override::Choice(index),
                    None => Override::NoMatch,
                },
                ..old(self)@
            }),
    {
        self.manual_choice = match index {
            Some(index) => Override::Choice(index),
            None => Override::NoMatch,
        };
    }

    /// The match of the source.
    pub fn current_choice(&self) -> (choice: Option<usize>)
        ensures
            choice == self@.choice(),
    {
        match self.manual_choice {
            Override::Choice(index) => Some(index),
            Override::NoMatch => None,
            Override::Unset => if self.choice_map.len() > 0 {
                Some(self.choice_map[0].index)
            } else {
                None
            },
        }
    }

    /// The score of the match, where the user decided nothing.
    pub fn current_score(&self) -> (score: Option<Score>)
        ensures
            score == self@.score(),
            self@.decision != Override::Unset ==> score is None,
    {
        match self.manual_choice {
            Override::Unset => if self.choice_map.len() > 0 {
                Some(self.choice_map[0].score)
            } else {
                Some(Score::from_bits(ZERO_BITS))
            },
            _ => None,
        }
    }

    /// The match of the source where it is accepted, and `None` where it has
    /// none, where the match is the place of no choice, or where its score is
    /// below `threshold`.
    pub fn accepted_choice(&self, choice_names: &Vec<FilePath>, threshold: Score) -> (choice:
        Option<usize>)
        ensures
            choice == self@.accepted(file_views(choice_names@), threshold),
            choice matches Some(index) ==> index < choice_names@.len(),
    {
        let below_threshold = match self.current_score() {
            Some(score) => score.is_below(threshold),
            None => false,
        };
        match self.current_choice() {
            Some(index) => if index < choice_names.len() && !below_threshold {
                Some(index)
            } else {
                None
            },
            None => None,
        }
    }

    /// Computes the candidates anew, against `choice_names` and by
    /// `algorithm`. What the user decided stays.
    ///
    /// The candidates are a selection of the best of the choices: as many as
    /// there are choices, up to `CHOICE_PREVIEW_COUNT`, each with its score, a
    /// number from zero to one; none left out that scores higher than one
    /// that was kept; the best first.
    pub fn update_choices(&mut self, choice_names: &Vec<FilePath>, algorithm: &SearchAlgorithm)
        requires
            all_comparable(old(self)@.file.name, file_views(choice_names@), *algorithm),
        ensures
            final(self)@ == (SourceView {
                candidates: candidates_of(
                    old(self)@.file.name,
                    file_views(choice_names@),
                    *algorithm,
                ),
                ..old(self)@
            }),
            final(self)@.is_current(file_views(choice_names@), *algorithm),
            is_selection(
                final(self)@.candidates,
                scores_against(old(self)@.file.name, file_views(choice_names@), *algorithm),
            ),
            descending(final(self)@.candidates),
            forall|k: int|
                0 <= k < final(self)@.candidates.len() ==> (
                #[trigger] final(self)@.candidates[k]).score.in_unit(),
    {
        let ghost choices = file_views(choice_names@);
        let ghost scores = scores_against(self@.file.name, choices, *algorithm);
        let name = remove_extension(self.file.name.as_str());
        let mut slots: Vec<Candidate> = Vec::new();
        let mut i: usize = 0;
        while i < choice_names.len()
            invariant
                i <= choice_names.len(),
                choices == file_views(choice_names@),
                all_comparable(self@.file.name, choices, *algorithm),
                name@ == strip_extension(self@.file.name),
                scores == scores_against(self@.file.name, choices, *algorithm),
                slots@ == gathered(scores.take(i as int)),
                forall|j: int| 0 <= j < i ==> (#[trigger] scores[j]).in_unit(),
            decreases choice_names.len() - i,
        {
            let other = remove_extension(choice_names[i].name.as_str());
            assert(choices[i as int] == choice_names@[i as int]@);
            assert(algorithm.comparable(name@, strip_extension(choices[i as int].name)));
            let score = algorithm.compare(name, other);
            assert(scores.take(i + 1).drop_last() == scores.take(i as int));
            offer(&mut slots, Candidate { index: i, score });
            i = i + 1;
        }
        proof {
            assert(scores.take(scores.len() as int) == scores);
            lemma_selected(scores);
            lemma_selected_in_unit(scores);
        }
        self.choice_map = rank(&slots);
    }
}

} // verus!
