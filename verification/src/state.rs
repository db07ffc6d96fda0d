//! The state of the application: the search, the settings of the output,
//! and what the window shows beside them.

use std::path::PathBuf;
use vstd::prelude::*;
use crate::metric::SearchAlgorithm;
use crate::plan::{plan_of, plan_view};
use crate::rename::{resolve, resolved, SideToUse};
use crate::score::Score;
use crate::search::{FuzzySearch, SearchView};

verus! {

/// Bit pattern of the threshold that a new application starts with: 0.7.
pub const DEFAULT_THRESHOLD_BITS: u64 = 0x3FE6_6666_6666_6666;

/// The colours of the window.
#[derive(Clone, Copy, Debug, PartialEq, Eq, Structural)]
pub enum WindowTheme {
    Dark,
    Light,
}

/// The message in the status bar.
#[derive(Debug, PartialEq, Eq)]
pub enum AppStatus {
    /// No message.
    Idle,
    /// A message about what was done.
    Info(String),
    /// A message that stands out.
    Notice(String),
}

/// What a message is to the library: its kind and its characters.
pub enum StatusView {
    Idle,
    Info(Seq<char>),
    Notice(Seq<char>),
}

impl View for AppStatus {
    type V = StatusView;

    open spec fn view(&self) -> StatusView {
        match self {
            AppStatus::Idle => StatusView::Idle,
            AppStatus::Info(message) => StatusView::Info(message@),
            AppStatus::Notice(message) => StatusView::Notice(message@),
        }
    }
}

/// The state of the application.
#[derive(Debug, PartialEq, Eq)]
pub struct MainApp {
    /// The directory that the sources were last taken from.
    pub sources_path: String,
    /// The directory that the choices were last taken from.
    pub choices_path: String,
    /// The directory that the results were last copied to.
    pub renames_path: String,
    /// Whether a new name keeps the extension of the reference in its body.
    pub keep_extension: bool,
    /// Which files are copied or renamed.
    pub side_to_copy: SideToUse,
    /// Whether sources without a match are copied too, under their own names.
    pub copy_failed_sources: bool,
    pub window_theme: WindowTheme,
    /// The least score at which a match that the user did not decide is
    /// accepted.
    pub threshold: Score,
    pub search: FuzzySearch,
    pub status: AppStatus,
}

/// What the state of the application is to the library.
pub struct AppView {
    pub sources_path: Seq<char>,
    pub choices_path: Seq<char>,
    pub renames_path: Seq<char>,
    pub keep_extension: bool,
    pub side_to_copy: SideToUse,
    pub copy_failed_sources: bool,
    pub window_theme: WindowTheme,
    pub threshold: Score,
    pub search: SearchView,
    pub status: StatusView,
}

impl View for MainApp {
    type V = AppView;

    open spec fn view(&self) -> AppView {
        AppView {
            sources_path: self.sources_path@,
            choices_path: self.choices_path@,
            renames_path: self.renames_path@,
            keep_extension: self.keep_extension,
            side_to_copy: self.side_to_copy,
            copy_failed_sources: self.copy_failed_sources,
            window_theme: self.window_theme,
            threshold: self.threshold,
            search: self.search@,
            status: self.status@,
        }
    }
}

/// The state that the application starts with: nothing to match and no
/// directory remembered, the Jaro metric, the choices as the side that is
/// copied, names without the extension of the reference, sources without a
/// match included, a threshold of 0.7, the light colours and no message.
pub open spec fn initial() -> AppView {
    AppView {
        sources_path: Seq::empty(),
        choices_path: Seq::empty(),
        renames_path: Seq::empty(),
        keep_extension: false,
        side_to_copy: SideToUse::Choices,
        copy_failed_sources: true,
        window_theme: WindowTheme::Light,
        threshold: Score { bits: DEFAULT_THRESHOLD_BITS },
        search: SearchView {
            sources: Seq::empty(),
            choices: Seq::empty(),
            algorithm: SearchAlgorithm::Jaro,
        },
        status: StatusView::Idle,
    }
}

impl Default for MainApp {
    /// The state that the application starts with.
    fn default() -> (app: MainApp)
        ensures
            app@ == initial(),
    {
        MainApp {
            sources_path: String::new(),
            choices_path: String::new(),
            renames_path: String::new(),
            keep_extension: false,
            side_to_copy: SideToUse::Choices,
            copy_failed_sources: true,
            window_theme: WindowTheme::Light,
            threshold: Score::from_bits(DEFAULT_THRESHOLD_BITS),
            search: FuzzySearch::new(),
            status: AppStatus::Idle,
        }
    }
}

impl MainApp {
    /// The state at the start of a run: what was saved by the run before, and
    /// without it the state that the application starts with.
    pub fn new(saved: Option<MainApp>) -> (app: MainApp)
        ensures
            match saved {
                Some(saved) => app == saved,
                None => app@ == initial(),
            },
    {
        match saved {
            Some(saved) => saved,
            None => MainApp::default(),
        }
    }

    /// The plan under the settings of the application, with the sources that
    /// have no accepted match where `include_failed` asks for them.
    pub fn iter_renames(&self, include_failed: bool) -> (plan: Vec<(&PathBuf, String)>)
        ensures
            plan_view(plan@) == plan_of(
                self@.search.sources,
                self@.search.choices,
                self@.threshold,
                include_failed,
                self@.side_to_copy,
                self@.keep_extension,
            ),
    {
        self.search.build_plan(
            self.threshold,
            include_failed,
            self.side_to_copy,
            self.keep_extension,
        )
    }

    /// The new name for a source called `source` that is matched with a
    /// choice called `choice`, under the settings of the application.
    pub fn rename(&self, source: &str, choice: &str) -> (name: String)
        ensures
            name@ == resolved(source@, choice@, self@.keep_extension, self@.side_to_copy),
    {
        resolve(source, choice, self.keep_extension, self.side_to_copy)
    }
}

} // verus!
