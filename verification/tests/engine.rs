use std::path::PathBuf;

use fuzzy_rename::entry::FilePath;
use fuzzy_rename::metric::{name_fits, SearchAlgorithm};
use fuzzy_rename::ranking::Candidate;
use fuzzy_rename::score::Score;
use fuzzy_rename::search::FuzzySearch;
use fuzzy_rename::source::{Override, SourceName};

fn score(value: f64) -> Score {
    Score::from_bits(value.to_bits())
}

fn source(name: &str) -> FilePath {
    FilePath::new(name.to_string(), PathBuf::from("/sources").join(name))
}

fn choice(name: &str) -> FilePath {
    FilePath::new(name.to_string(), PathBuf::from("/choices").join(name))
}

fn names(search: &FuzzySearch) -> Vec<&str> {
    search.source_names.iter().map(|source| source.file.name.as_str()).collect()
}

fn expected_candidates(name: &str, choices: &[&str], algorithm: SearchAlgorithm) -> Vec<Candidate> {
    let mut record = SourceName::new(source(name));
    let choices: Vec<FilePath> = choices.iter().map(|name| choice(name)).collect();
    record.update_choices(&choices, &algorithm);
    record.choice_map
}

fn search_with(sources: &[&str], choices: &[&str]) -> FuzzySearch {
    let mut search = FuzzySearch::new();
    search.add_choices(choices.iter().map(|name| choice(name)).collect());
    for name in sources {
        search.add_source(source(name));
    }
    search
}

#[test]
fn new_search_is_empty_and_uses_jaro() {
    let search = FuzzySearch::new();
    assert_eq!(search.source_names, Vec::new());
    assert_eq!(search.choice_names, Vec::new());
    assert_eq!(search.algorithm, SearchAlgorithm::Jaro);
    assert_eq!(FuzzySearch::default(), search);
}

#[test]
fn add_source_scores_it_against_the_choices() {
    let mut search = FuzzySearch::new();
    search.set_metric(SearchAlgorithm::Levenshtein);
    search.add_choices(vec![choice("sitting.jpg"), choice("kitten.gif")]);
    search.add_source(source("kitten.png"));
    assert_eq!(search.source_names.len(), 1);
    assert_eq!(search.source_names[0].file, source("kitten.png"));
    assert_eq!(search.source_names[0].manual_choice, Override::Unset);
    assert_eq!(
        search.source_names[0].choice_map,
        vec![
            Candidate { index: 1, score: score(1.0) },
            Candidate { index: 0, score: score(1.0 - 3.0 / 7.0) },
        ]
    );
}

#[test]
fn add_source_goes_behind_the_others_and_leaves_them_alone() {
    let mut search = search_with(&["b.txt", "a.txt"], &["a.dat", "c.dat"]);
    search.set_override(0, Some(1));
    let before: Vec<SourceName> = search
        .source_names
        .iter()
        .map(|record| SourceName {
            file: source(&record.file.name),
            choice_map: record.choice_map.clone(),
            manual_choice: record.manual_choice,
        })
        .collect();
    search.add_source(source("0.txt"));
    assert_eq!(names(&search), ["b.txt", "a.txt", "0.txt"]);
    assert_eq!(search.source_names[..2], before[..]);
    assert_eq!(search.choice_names, vec![choice("a.dat"), choice("c.dat")]);
}

#[test]
fn add_source_without_choices_has_no_candidates() {
    let mut search = FuzzySearch::new();
    search.add_source(source("a.txt"));
    assert_eq!(search.source_names[0].choice_map, Vec::new());
    assert_eq!(search.source_names[0].current_choice(), None);
}

#[test]
fn add_choice_computes_every_source_anew() {
    let mut search = search_with(&["kitten.png", "mitten.png"], &["sitting.jpg"]);
    search.set_metric(SearchAlgorithm::Levenshtein);
    search.add_choice(choice("mitten.gif"));
    assert_eq!(search.choice_names, vec![choice("sitting.jpg"), choice("mitten.gif")]);
    assert_eq!(names(&search), ["kitten.png", "mitten.png"]);
    assert_eq!(
        search.source_names[0].choice_map,
        vec![
            Candidate { index: 1, score: score(1.0 - 1.0 / 6.0) },
            Candidate { index: 0, score: score(1.0 - 3.0 / 7.0) },
        ]
    );
    assert_eq!(
        search.source_names[1].choice_map,
        vec![
            Candidate { index: 1, score: score(1.0) },
            Candidate { index: 0, score: score(1.0 - 3.0 / 7.0) },
        ]
    );
}

#[test]
fn add_choices_adds_them_in_order() {
    let mut search = search_with(&["a.txt"], &["x.dat"]);
    search.add_choices(vec![choice("y.dat"), choice("a.dat")]);
    assert_eq!(search.choice_names, vec![choice("x.dat"), choice("y.dat"), choice("a.dat")]);
    assert_eq!(search.source_names[0].current_choice(), Some(2));
    assert_eq!(search.source_names[0].current_score(), Some(score(1.0)));
    assert_eq!(search.source_names[0].choice_map.len(), 3);
}

#[test]
fn add_choices_without_any_changes_nothing() {
    let mut search = search_with(&["b.txt", "a.txt"], &["a.dat"]);
    search.add_choices(Vec::new());
    // not even the order of the sources
    assert_eq!(names(&search), ["b.txt", "a.txt"]);
    assert_eq!(search.choice_names, vec![choice("a.dat")]);
}

#[test]
fn update_all_puts_the_sources_in_the_order_of_their_names() {
    let mut search = search_with(&["b.txt", "c.txt", "a.txt", "B.txt", "ab.txt", "a"], &["a.dat"]);
    search.update_all();
    assert_eq!(names(&search), ["B.txt", "a", "a.txt", "ab.txt", "b.txt", "c.txt"]);
}

#[test]
fn update_all_orders_names_by_their_characters() {
    let mut search = search_with(&["é.txt", "z.txt", "写真.png", "e.txt", "Z.txt", ""], &[]);
    search.update_all();
    assert_eq!(names(&search), ["", "Z.txt", "e.txt", "z.txt", "é.txt", "写真.png"]);
}

#[test]
fn update_all_keeps_sources_of_one_name_in_their_order() {
    let mut search = FuzzySearch::new();
    for (name, folder) in [("b", "/3"), ("a", "/2"), ("b", "/1"), ("a", "/9"), ("a", "/0")] {
        search.add_source(FilePath::new(name.to_string(), PathBuf::from(folder).join(name)));
    }
    search.update_all();
    let paths: Vec<&str> =
        search.source_names.iter().map(|source| source.file.path.to_str().unwrap()).collect();
    assert_eq!(paths, ["/2/a", "/9/a", "/0/a", "/3/b", "/1/b"]);
}

#[test]
fn update_all_of_sources_in_order_changes_no_place() {
    let mut search = search_with(&["a", "b", "c", "d"], &["c.dat"]);
    search.set_override(1, None);
    search.update_all();
    assert_eq!(names(&search), ["a", "b", "c", "d"]);
    assert_eq!(search.source_names[1].manual_choice, Override::NoMatch);
    search.update_all();
    assert_eq!(names(&search), ["a", "b", "c", "d"]);
}

#[test]
fn update_all_orders_sources_that_came_in_backwards() {
    let mut search = search_with(&["e", "d", "c", "b", "a"], &[]);
    search.update_all();
    assert_eq!(names(&search), ["a", "b", "c", "d", "e"]);
}

#[test]
fn update_all_keeps_files_and_decisions_together() {
    let mut search = search_with(&["b.txt", "c.txt", "a.txt"], &["a.dat", "b.dat", "c.dat"]);
    search.set_override(0, Some(2));
    search.set_override(1, None);
    search.update_all();
    assert_eq!(names(&search), ["a.txt", "b.txt", "c.txt"]);
    assert_eq!(search.source_names[0].manual_choice, Override::Unset);
    assert_eq!(search.source_names[1].manual_choice, Override::Choice(2));
    assert_eq!(search.source_names[2].manual_choice, Override::NoMatch);
    assert_eq!(search.source_names[0].file.path, PathBuf::from("/sources/a.txt"));
    assert_eq!(search.source_names[1].file.path, PathBuf::from("/sources/b.txt"));
    assert_eq!(search.source_names[2].file.path, PathBuf::from("/sources/c.txt"));
    assert_eq!(search.source_names[0].current_choice(), Some(0));
    assert_eq!(search.source_names[1].current_choice(), Some(2));
    assert_eq!(search.source_names[2].current_choice(), None);
}

#[test]
fn update_all_computes_stale_candidates_anew() {
    let mut search = search_with(&["kitten.png"], &["kitten.gif"]);
    search.source_names[0].choice_map = vec![Candidate { index: 5, score: score(0.25) }];
    search.update_all();
    assert_eq!(search.source_names[0].choice_map, vec![Candidate { index: 0, score: score(1.0) }]);
}

#[test]
fn remove_source_leaves_the_others_unchanged() {
    let mut search = search_with(&["d.txt", "b.txt", "c.txt", "a.txt"], &["a.dat", "b.dat", "c.dat"]);
    search.set_override(0, Some(1));
    search.set_override(2, None);
    search.set_override(3, Some(9));
    let before: Vec<SourceName> = search
        .source_names
        .iter()
        .map(|record| SourceName {
            file: source(&record.file.name),
            choice_map: record.choice_map.clone(),
            manual_choice: record.manual_choice,
        })
        .collect();
    search.remove_source(1);
    assert_eq!(search.source_names.len(), 3);
    assert_eq!(search.source_names[0], before[0]);
    assert_eq!(search.source_names[1], before[2]);
    assert_eq!(search.source_names[2], before[3]);
    assert_eq!(search.choice_names, vec![choice("a.dat"), choice("b.dat"), choice("c.dat")]);
    assert_eq!(search.algorithm, SearchAlgorithm::Jaro);
}

#[test]
fn remove_source_out_of_range_changes_nothing() {
    let mut search = search_with(&["a.txt", "b.txt"], &["a.dat"]);
    search.set_override(1, Some(0));
    let before = search_with(&["a.txt", "b.txt"], &["a.dat"]);
    for index in [2, 3, usize::MAX] {
        search.remove_source(index);
        assert_eq!(names(&search), ["a.txt", "b.txt"]);
        assert_eq!(search.source_names[0], before.source_names[0]);
        assert_eq!(search.source_names[1].manual_choice, Override::Choice(0));
        assert_eq!(search.choice_names, before.choice_names);
    }
    let mut empty = FuzzySearch::new();
    empty.remove_source(0);
    assert_eq!(empty, FuzzySearch::new());
}

#[test]
fn override_out_of_range_changes_nothing() {
    let mut search = search_with(&["a.txt", "b.txt"], &["a.dat"]);
    search.set_override(0, None);
    for index in [2, 3, usize::MAX] {
        search.set_override(index, Some(0));
        search.set_override(index, None);
        search.reset_override(index);
        assert_eq!(search.source_names.len(), 2);
        assert_eq!(search.source_names[0].manual_choice, Override::NoMatch);
        assert_eq!(search.source_names[1].manual_choice, Override::Unset);
    }
    let mut empty = FuzzySearch::new();
    empty.set_override(0, Some(0));
    empty.reset_override(0);
    assert_eq!(empty, FuzzySearch::new());
}

#[test]
fn try_add_source_takes_a_file_with_a_name() {
    let mut search = search_with(&[], &["kitten.gif"]);
    search.set_metric(SearchAlgorithm::Levenshtein);
    let taken = search.try_add_source(Some("kitten.png".to_string()), PathBuf::from("/s/kitten.png"));
    assert!(taken);
    assert_eq!(search.source_names.len(), 1);
    assert_eq!(search.source_names[0].file.name, "kitten.png");
    assert_eq!(search.source_names[0].file.path, PathBuf::from("/s/kitten.png"));
    assert_eq!(search.source_names[0].manual_choice, Override::Unset);
    assert_eq!(search.source_names[0].choice_map, vec![Candidate { index: 0, score: score(1.0) }]);
    // also one with a name far longer than a file system holds
    assert!(search.try_add_source(Some("n".repeat(16_381)), PathBuf::from("/s/n")));
    assert_eq!(search.source_names.len(), 2);
}

#[test]
fn try_add_source_passes_over_a_file_without_a_name() {
    let mut search = search_with(&["a.txt"], &["a.dat"]);
    let taken = search.try_add_source(None, PathBuf::from("/"));
    assert!(!taken);
    assert_eq!(search, search_with(&["a.txt"], &["a.dat"]));
}

/// The length of the shortest name that is too long on this machine.
fn too_long() -> usize {
    let (mut fits, mut too_long) = (0, usize::MAX);
    while too_long - fits > 1 {
        let middle = fits + (too_long - fits) / 2;
        if name_fits(middle) {
            fits = middle;
        } else {
            too_long = middle;
        }
    }
    too_long
}

#[test]
fn try_add_source_passes_over_a_name_too_long_to_compare() {
    let mut search = search_with(&["a.txt"], &["a.dat"]);
    let taken = search.try_add_source(Some("n".repeat(too_long())), PathBuf::from("/s/n"));
    assert!(!taken);
    assert_eq!(search, search_with(&["a.txt"], &["a.dat"]));
}

#[test]
fn try_add_choices_passes_over_a_name_too_long_to_compare() {
    let mut search = search_with(&["b.txt", "a.txt"], &["x.dat"]);
    let long = FilePath::new("n".repeat(too_long()), PathBuf::from("/c/n"));
    assert!(!long.fits());
    let taken = search.try_add_choices(vec![choice("y.dat"), long, choice("a.dat")]);
    assert_eq!(taken, 2);
    assert_eq!(search.choice_names, vec![choice("x.dat"), choice("y.dat"), choice("a.dat")]);
    assert_eq!(names(&search), ["a.txt", "b.txt"]);

    let long = FilePath::new("n".repeat(too_long()), PathBuf::from("/c/n"));
    let mut search = search_with(&["b.txt", "a.txt"], &["x.dat"]);
    assert_eq!(search.try_add_choices(vec![long]), 0);
    assert_eq!(names(&search), ["b.txt", "a.txt"]);
    assert_eq!(search.choice_names, vec![choice("x.dat")]);
}

#[test]
fn try_add_choices_takes_the_files_in_their_order() {
    let mut search = search_with(&["b.txt", "a.txt"], &["x.dat"]);
    let taken = search.try_add_choices(vec![choice("y.dat"), choice("a.dat")]);
    assert_eq!(taken, 2);
    assert_eq!(search.choice_names, vec![choice("x.dat"), choice("y.dat"), choice("a.dat")]);
    assert_eq!(names(&search), ["a.txt", "b.txt"]);
    assert_eq!(search.source_names[0].current_choice(), Some(2));
    assert_eq!(search.source_names[0].choice_map.len(), 3);
}

#[test]
fn try_add_choices_without_any_changes_nothing() {
    let mut search = search_with(&["b.txt", "a.txt"], &["a.dat"]);
    assert_eq!(search.try_add_choices(Vec::new()), 0);
    assert_eq!(names(&search), ["b.txt", "a.txt"]);
    assert_eq!(search.choice_names, vec![choice("a.dat")]);
}

#[test]
fn remove_source_at_either_end() {
    let mut search = search_with(&["a.txt", "b.txt", "c.txt"], &[]);
    search.remove_source(2);
    assert_eq!(names(&search), ["a.txt", "b.txt"]);
    search.remove_source(0);
    assert_eq!(names(&search), ["b.txt"]);
    search.remove_source(0);
    assert_eq!(search.source_names, Vec::new());
}

#[test]
fn clear_sources_removes_them_all() {
    let mut search = search_with(&["a.txt", "b.txt"], &["a.dat"]);
    search.set_metric(SearchAlgorithm::JaroWinkler);
    search.clear_sources();
    assert_eq!(search.source_names, Vec::new());
    assert_eq!(search.choice_names, vec![choice("a.dat")]);
    assert_eq!(search.algorithm, SearchAlgorithm::JaroWinkler);
}

#[test]
fn clear_choices_leaves_no_candidates() {
    let mut search = search_with(&["b.txt", "a.txt"], &["a.dat", "b.dat"]);
    search.set_override(0, Some(1));
    search.clear_choices();
    assert_eq!(search.choice_names, Vec::new());
    assert_eq!(names(&search), ["a.txt", "b.txt"]);
    for record in &search.source_names {
        assert_eq!(record.choice_map, Vec::new());
    }
    // what the user decided stays, though the place holds no choice now
    assert_eq!(search.source_names[1].manual_choice, Override::Choice(1));
    assert_eq!(search.source_names[0].current_choice(), None);
    assert_eq!(search.source_names[0].current_score(), Some(score(0.0)));
}

#[test]
fn set_metric_computes_every_source_anew() {
    let mut search = search_with(&["ab.txt", "kitten.png"], &["ba.dat", "sitting.jpg"]);
    let choices = ["ba.dat", "sitting.jpg"];
    for algorithm in [
        SearchAlgorithm::Levenshtein,
        SearchAlgorithm::DamerauLevenshtein,
        SearchAlgorithm::JaroWinkler,
        SearchAlgorithm::Jaro,
    ] {
        search.set_metric(algorithm);
        assert_eq!(search.algorithm, algorithm);
        assert_eq!(search.source_names.len(), 2);
        assert_eq!(search.choice_names.len(), 2);
        for record in &search.source_names {
            assert_eq!(
                record.choice_map,
                expected_candidates(&record.file.name, &choices, algorithm)
            );
        }
    }
    search.set_metric(SearchAlgorithm::Levenshtein);
    assert_eq!(
        search.source_names[0].choice_map,
        vec![
            Candidate { index: 0, score: score(0.0) },
            Candidate { index: 1, score: score(0.0) },
        ]
    );
    search.set_metric(SearchAlgorithm::DamerauLevenshtein);
    assert_eq!(
        search.source_names[0].choice_map,
        vec![
            Candidate { index: 0, score: score(0.5) },
            Candidate { index: 1, score: score(0.0) },
        ]
    );
}

#[test]
fn set_metric_leaves_the_sizes_unchanged() {
    let mut search = search_with(&["c", "a", "b", "a"], &["x", "y", "z"]);
    search.set_metric(SearchAlgorithm::Levenshtein);
    assert_eq!(search.source_names.len(), 4);
    assert_eq!(search.choice_names, vec![choice("x"), choice("y"), choice("z")]);
    assert_eq!(names(&search), ["a", "a", "b", "c"]);
}

#[test]
fn set_override_decides_for_one_source() {
    let mut search = search_with(&["a.txt", "b.txt", "c.txt"], &["a.dat", "b.dat"]);
    let candidates = search.source_names[1].choice_map.clone();
    search.set_override(1, Some(0));
    assert_eq!(search.source_names[0].manual_choice, Override::Unset);
    assert_eq!(search.source_names[1].manual_choice, Override::Choice(0));
    assert_eq!(search.source_names[2].manual_choice, Override::Unset);
    assert_eq!(search.source_names[1].choice_map, candidates);
    assert_eq!(search.source_names[1].current_choice(), Some(0));
    assert_eq!(search.source_names[1].current_score(), None);
    search.set_override(1, None);
    assert_eq!(search.source_names[1].manual_choice, Override::NoMatch);
    assert_eq!(search.source_names[1].current_choice(), None);
    assert_eq!(search.source_names[1].current_score(), None);
}

#[test]
fn reset_override_takes_the_decision_back() {
    let mut search = search_with(&["a.txt", "b.txt"], &["a.dat", "b.dat"]);
    search.set_override(0, None);
    search.set_override(1, Some(0));
    search.reset_override(1);
    assert_eq!(search.source_names[0].manual_choice, Override::NoMatch);
    assert_eq!(search.source_names[1].manual_choice, Override::Unset);
    assert_eq!(search.source_names[1].current_choice(), Some(1));
    assert_eq!(search.source_names[1].current_score(), Some(score(1.0)));
}

#[test]
fn sources_keep_ten_candidates_of_many_choices() {
    let mut search = FuzzySearch::new();
    search.set_metric(SearchAlgorithm::Levenshtein);
    let choices: Vec<FilePath> = (0..25)
        .map(|i| choice(&format!("{}{}.dat", "a".repeat(i), "b".repeat(24 - i))))
        .collect();
    search.add_choices(choices);
    search.add_source(source(&format!("{}.txt", "a".repeat(24))));
    search.add_source(source(&format!("{}.txt", "b".repeat(24))));
    let towards_a: Vec<Candidate> = (0..10)
        .map(|k| Candidate { index: 24 - k, score: score(1.0 - k as f64 / 24.0) })
        .collect();
    let towards_b: Vec<Candidate> =
        (0..10).map(|k| Candidate { index: k, score: score(1.0 - k as f64 / 24.0) }).collect();
    assert_eq!(search.source_names[0].choice_map, towards_a);
    assert_eq!(search.source_names[1].choice_map, towards_b);
}
