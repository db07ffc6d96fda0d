use std::path::PathBuf;

use fuzzy_rename::entry::FilePath;
use fuzzy_rename::metric::SearchAlgorithm;
use fuzzy_rename::ranking::Candidate;
use fuzzy_rename::rename::SideToUse;
use fuzzy_rename::score::Score;
use fuzzy_rename::search::FuzzySearch;
use fuzzy_rename::source::{Override, SourceName};

fn score(value: f64) -> Score {
    Score::from_bits(value.to_bits())
}

fn source(name: &str) -> FilePath {
    FilePath::new(name.to_string(), PathBuf::from("/sources").join(name))
}

fn choice(name: &str) -> FilePath {
    FilePath::new(name.to_string(), PathBuf::from("/choices").join(name))
}

fn record(name: &str, entries: &[(usize, f64)], manual_choice: Override) -> SourceName {
    SourceName {
        file: source(name),
        choice_map: entries
            .iter()
            .map(|(index, value)| Candidate { index: *index, score: score(*value) })
            .collect(),
        manual_choice,
    }
}

fn search_of(sources: Vec<SourceName>, choices: &[&str]) -> FuzzySearch {
    FuzzySearch {
        source_names: sources,
        choice_names: choices.iter().map(|name| choice(name)).collect(),
        algorithm: SearchAlgorithm::Jaro,
    }
}

fn items(plan: Vec<(&PathBuf, String)>) -> Vec<(String, String)> {
    plan.into_iter().map(|(path, name)| (path.to_str().unwrap().to_string(), name)).collect()
}

fn item(path: &str, name: &str) -> (String, String) {
    (path.to_string(), name.to_string())
}

#[test]
fn plan_of_nothing_is_empty() {
    let search = FuzzySearch::new();
    assert_eq!(items(search.build_plan(score(0.7), true, SideToUse::Sources, false)), []);
}

#[test]
fn source_below_the_threshold_is_left_out() {
    let search = search_of(vec![record("photo.png", &[(0, 0.5)], Override::Unset)], &["cover.jpg"]);
    assert_eq!(items(search.build_plan(score(0.7), false, SideToUse::Sources, false)), []);
    assert_eq!(items(search.build_plan(score(0.7), false, SideToUse::Choices, false)), []);
    assert_eq!(items(search.build_plan(score(0.7), true, SideToUse::Choices, false)), []);
}

#[test]
fn source_below_the_threshold_is_kept_unchanged_when_asked() {
    let search = search_of(vec![record("photo.png", &[(0, 0.5)], Override::Unset)], &["cover.jpg"]);
    assert_eq!(
        items(search.build_plan(score(0.7), true, SideToUse::Sources, false)),
        [item("/sources/photo.png", "photo.png")]
    );
    assert_eq!(
        items(search.build_plan(score(0.7), true, SideToUse::Sources, true)),
        [item("/sources/photo.png", "photo.png")]
    );
}

#[test]
fn source_at_the_threshold_is_accepted() {
    let search = search_of(vec![record("photo.png", &[(0, 0.7)], Override::Unset)], &["cover.jpg"]);
    assert_eq!(
        items(search.build_plan(score(0.7), false, SideToUse::Sources, false)),
        [item("/sources/photo.png", "cover.png")]
    );
    let search = search_just_below();
    assert_eq!(items(search.build_plan(score(0.7), false, SideToUse::Sources, false)), []);
}

fn search_just_below() -> FuzzySearch {
    let below = f64::from_bits(0.7f64.to_bits() - 1);
    search_of(vec![record("photo.png", &[(0, below)], Override::Unset)], &["cover.jpg"])
}

#[test]
fn every_match_is_accepted_at_a_negative_threshold() {
    let search =
        search_of(vec![record("photo.png", &[(0, 0.5)], Override::Unset)], &["cover.jpg"]);
    for threshold in [-1.0f64, -0.0, -1e-300, f64::NEG_INFINITY, f64::NAN] {
        assert_eq!(
            items(search.build_plan(score(threshold), false, SideToUse::Sources, false)),
            [item("/sources/photo.png", "cover.png")]
        );
    }
    let zero = search_of(vec![record("photo.png", &[(0, 0.0)], Override::Unset)], &["cover.jpg"]);
    assert_eq!(
        items(zero.build_plan(score(-1.0), false, SideToUse::Choices, false)),
        [item("/choices/cover.jpg", "photo.jpg")]
    );
    // a source without a candidate has no match to accept
    let none = search_of(vec![record("photo.png", &[], Override::Unset)], &["cover.jpg"]);
    assert_eq!(items(none.build_plan(score(-1.0), false, SideToUse::Sources, false)), []);
}

#[test]
fn choices_are_copied_under_the_names_of_their_sources() {
    let search = search_of(vec![record("photo.png", &[(0, 0.9)], Override::Unset)], &["cover.jpg"]);
    assert_eq!(
        items(search.build_plan(score(0.7), false, SideToUse::Choices, false)),
        [item("/choices/cover.jpg", "photo.jpg")]
    );
    assert_eq!(
        items(search.build_plan(score(0.7), false, SideToUse::Choices, true)),
        [item("/choices/cover.jpg", "photo.png.jpg")]
    );
}

#[test]
fn sources_are_copied_under_the_names_of_their_choices() {
    let search = search_of(vec![record("photo.png", &[(0, 0.9)], Override::Unset)], &["cover.jpg"]);
    assert_eq!(
        items(search.build_plan(score(0.7), false, SideToUse::Sources, false)),
        [item("/sources/photo.png", "cover.png")]
    );
    assert_eq!(
        items(search.build_plan(score(0.7), false, SideToUse::Sources, true)),
        [item("/sources/photo.png", "cover.jpg.png")]
    );
}

#[test]
fn decision_is_accepted_at_any_threshold() {
    let search = search_of(
        vec![record("photo.png", &[(0, 0.9), (1, 0.1)], Override::Choice(1))],
        &["cover.jpg", "other.gif"],
    );
    assert_eq!(
        items(search.build_plan(score(1.0), false, SideToUse::Choices, false)),
        [item("/choices/other.gif", "photo.gif")]
    );
    // also a choice that is no candidate at all
    let search = search_decided(Override::Choice(1));
    assert_eq!(
        items(search.build_plan(score(1.0), false, SideToUse::Sources, false)),
        [item("/sources/photo.png", "other.png")]
    );
}

fn search_decided(manual_choice: Override) -> FuzzySearch {
    search_of(vec![record("photo.png", &[(0, 0.9)], manual_choice)], &["cover.jpg", "other.gif"])
}

#[test]
fn decision_against_a_match_leaves_the_source_out() {
    let search = search_decided(Override::NoMatch);
    assert_eq!(items(search.build_plan(score(0.0), false, SideToUse::Sources, false)), []);
    assert_eq!(items(search.build_plan(score(0.0), true, SideToUse::Choices, false)), []);
    assert_eq!(
        items(search.build_plan(score(0.0), true, SideToUse::Sources, false)),
        [item("/sources/photo.png", "photo.png")]
    );
}

#[test]
fn place_without_a_choice_counts_as_no_match() {
    let search = search_decided(Override::Choice(2));
    assert_eq!(items(search.build_plan(score(0.0), false, SideToUse::Sources, false)), []);
    assert_eq!(
        items(search.build_plan(score(0.0), true, SideToUse::Sources, false)),
        [item("/sources/photo.png", "photo.png")]
    );
    let stale = search_of(vec![record("photo.png", &[(7, 0.9)], Override::Unset)], &["cover.jpg"]);
    assert_eq!(items(stale.build_plan(score(0.0), false, SideToUse::Choices, false)), []);
}

#[test]
fn source_without_candidates_has_score_zero() {
    let search = search_of(vec![record("photo.png", &[], Override::Unset)], &[]);
    assert_eq!(items(search.build_plan(score(0.0), false, SideToUse::Sources, false)), []);
    assert_eq!(
        items(search.build_plan(score(0.0), true, SideToUse::Sources, false)),
        [item("/sources/photo.png", "photo.png")]
    );
}

#[test]
fn plan_follows_the_order_of_the_sources() {
    let search = search_of(
        vec![
            record("c.png", &[(0, 0.9)], Override::Unset),
            record("a.png", &[(1, 0.2)], Override::Unset),
            record("b.png", &[(1, 0.8)], Override::Unset),
            record("d.png", &[(0, 0.9)], Override::NoMatch),
            record("e.png", &[], Override::Choice(0)),
        ],
        &["x.jpg", "y.gif"],
    );
    assert_eq!(
        items(search.build_plan(score(0.7), true, SideToUse::Sources, false)),
        [
            item("/sources/c.png", "x.png"),
            item("/sources/a.png", "a.png"),
            item("/sources/b.png", "y.png"),
            item("/sources/d.png", "d.png"),
            item("/sources/e.png", "x.png"),
        ]
    );
    assert_eq!(
        items(search.build_plan(score(0.7), false, SideToUse::Sources, false)),
        [
            item("/sources/c.png", "x.png"),
            item("/sources/b.png", "y.png"),
            item("/sources/e.png", "x.png"),
        ]
    );
    assert_eq!(
        items(search.build_plan(score(0.7), true, SideToUse::Choices, false)),
        [
            item("/choices/x.jpg", "c.jpg"),
            item("/choices/y.gif", "b.gif"),
            item("/choices/x.jpg", "e.jpg"),
        ]
    );
}

#[test]
fn plan_keeps_items_with_the_same_name() {
    let search = search_of(
        vec![
            record("a.png", &[(0, 0.9)], Override::Unset),
            record("b.png", &[(0, 0.8)], Override::Unset),
        ],
        &["x.jpg"],
    );
    assert_eq!(
        items(search.build_plan(score(0.7), false, SideToUse::Sources, false)),
        [item("/sources/a.png", "x.png"), item("/sources/b.png", "x.png")]
    );
}

#[test]
fn plan_of_a_search_that_was_filled() {
    let mut search = FuzzySearch::new();
    search.set_metric(SearchAlgorithm::Levenshtein);
    search.add_choices(vec![choice("kitten.gif"), choice("sitting.jpg")]);
    search.add_source(source("mitten.png"));
    search.add_source(source("zzz.png"));
    assert_eq!(
        items(search.build_plan(score(0.7), true, SideToUse::Sources, false)),
        [item("/sources/mitten.png", "kitten.png"), item("/sources/zzz.png", "zzz.png")]
    );
    search.set_override(1, Some(1));
    assert_eq!(
        items(search.build_plan(score(0.7), false, SideToUse::Choices, false)),
        [item("/choices/kitten.gif", "mitten.gif"), item("/choices/sitting.jpg", "zzz.jpg")]
    );
}
