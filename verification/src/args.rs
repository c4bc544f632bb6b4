//! The raw option record handed in by the command-line layer.

use vstd::prelude::*;
use crate::config::AppConfig;

verus! {

/// How much of the output is colorized.
#[derive(Clone, Copy, Debug, PartialEq, Eq, Structural)]
pub enum ColorMode {
    Auto,
    Always,
    Never,
}

/// The raw, already-parsed command-line options. Parsing itself is an
/// external concern; this record only carries its outcome.
#[derive(Debug)]
pub struct Args {
    /// Show files that are excluded by ignore rules.
    pub show_gitignored: bool,
    /// Include hidden files and directories (names starting with `.`).
    pub show_hiddens: bool,
    /// Colorize the output.
    pub color: ColorMode,
    /// Add icons for known file types and directories.
    pub icons: bool,
    /// Limit the displayed depth of the tree.
    pub depth: Option<usize>,
    /// Display git status indicators.
    pub git: bool,
    /// Show the current branch name next to the root.
    pub git_branch: bool,
    /// Output the tree as a JSON structure.
    pub json: bool,
    /// Print only the number of files and directories.
    pub count: bool,
    /// Measure and display execution time.
    pub time: bool,
    /// Enable detailed logging.
    pub verbose: bool,
    /// Root directory to explore.
    pub root: String,
}

impl Default for Args {
    /// All switches off, automatic color, no depth bound, and the
    /// current directory as root.
    fn default() -> (r: Args)
        ensures
            !r.show_gitignored,
            !r.show_hiddens,
            r.color == ColorMode::Auto,
            !r.icons,
            r.depth is None,
            !r.git,
            !r.git_branch,
            !r.json,
            !r.count,
            !r.time,
            !r.verbose,
            r.root@ == "."@,
    {
        Args {
            show_gitignored: false,
            show_hiddens: false,
            color: ColorMode::Auto,
            icons: false,
            depth: None,
            git: false,
            git_branch: false,
            json: false,
            count: false,
            time: false,
            verbose: false,
            root: ".".to_owned(),
        }
    }
}

impl Args {
    /// Validates the raw options and groups them into an `AppConfig`.
    pub fn build_config(self) -> (r: Result<AppConfig, String>)
        ensures
            crate::config::raw_conflict(self) ==> r is Err && r->Err_0@
                == crate::config::conflict_msg(),
            !crate::config::raw_conflict(self) && crate::config::raw_bad_depth(self) ==> r is Err
                && r->Err_0@ == crate::config::bad_depth_msg(),
            !crate::config::raw_conflict(self) && !crate::config::raw_bad_depth(self) ==> r
                == Ok::<AppConfig, String>(crate::config::config_of(self)),
    {
        AppConfig::from_raw(self)
    }
}

} // verus!
