//! Validated run configuration, grouped by pipeline stage.

use vstd::prelude::*;
use crate::args::{Args, ColorMode};

verus! {

/// Which of the three renderers produces the output.
#[derive(Clone, Copy, Debug)]
pub enum OutputFormat {
    Tree,
    Json,
    Count,
}

/// Visibility rules for the filesystem walk.
#[derive(Clone, Copy, Debug)]
pub struct WalkOptions {
    pub follow_gitignore: bool,
    pub include_hidden: bool,
    pub depth: Option<usize>,
}

/// Presentation choices for the text renderer.
#[derive(Clone, Copy, Debug)]
pub struct RenderOptions {
    pub color: ColorMode,
    pub icons: bool,
    pub git: bool,
}

/// Version-control integration switches.
#[derive(Clone, Copy, Debug)]
pub struct GitOptions {
    pub enabled: bool,
    pub show_branch: bool,
}

/// Odds and ends of the run itself.
#[derive(Debug)]
pub struct RuntimeOptions {
    pub measure_time: bool,
    pub verbose: bool,
    pub root: String,
}

/// The whole validated configuration.
#[derive(Debug)]
pub struct AppConfig {
    pub walk: WalkOptions,
    pub render: RenderOptions,
    pub git: GitOptions,
    pub output: OutputFormat,
    pub runtime: RuntimeOptions,
}

/// Two output modes were requested at once.
pub open spec fn raw_conflict(raw: Args) -> bool {
    raw.json && raw.count
}

/// A depth bound was given but is zero.
pub open spec fn raw_bad_depth(raw: Args) -> bool {
    raw.depth == Some(0usize)
}

/// The message reported for conflicting output modes.
pub open spec fn conflict_msg() -> Seq<char> {
    "--json and --count are mutually exclusive"@
}

/// The message reported for a zero depth bound.
pub open spec fn bad_depth_msg() -> Seq<char> {
    "--depth must be >= 1 when provided"@
}

/// The configuration that a valid option record maps to.
pub open spec fn config_of(raw: Args) -> AppConfig {
    AppConfig {
        walk: WalkOptions {
            follow_gitignore: !raw.show_gitignored,
            include_hidden: raw.show_hiddens,
            depth: raw.depth,
        },
        render: RenderOptions { color: raw.color, icons: raw.icons, git: raw.git },
        git: GitOptions { enabled: raw.git, show_branch: raw.git_branch },
        output: if raw.json {
            OutputFormat::Json
        } else if raw.count {
            OutputFormat::Count
        } else {
            OutputFormat::Tree
        },
        runtime: RuntimeOptions { measure_time: raw.time, verbose: raw.verbose, root: raw.root },
    }
}

impl AppConfig {
    /// Validates the raw options: conflicting output modes and a zero
    /// depth bound are rejected (in that order) with a descriptive
    /// message; everything else maps to exactly one configuration.
    pub fn from_raw(raw: Args) -> (r: Result<AppConfig, String>)
        ensures
            raw_conflict(raw) ==> r is Err && r->Err_0@ == conflict_msg(),
            !raw_conflict(raw) && raw_bad_depth(raw) ==> r is Err && r->Err_0@
                == bad_depth_msg(),
            !raw_conflict(raw) && !raw_bad_depth(raw) ==> r == Ok::<AppConfig, String>(
                config_of(raw),
            ),
    {
        if raw.json && raw.count {
            return Err("--json and --count are mutually exclusive".to_owned());
        }
        if let Some(d) = raw.depth {
            if d == 0 {
                return Err("--depth must be >= 1 when provided".to_owned());
            }
        }
        let output = if raw.json {
            OutputFormat::Json
        } else if raw.count {
            OutputFormat::Count
        } else {
            OutputFormat::Tree
        };
        Ok(AppConfig {
            walk: WalkOptions {
                follow_gitignore: !raw.show_gitignored,
                include_hidden: raw.show_hiddens,
                depth: raw.depth,
            },
            render: RenderOptions { color: raw.color, icons: raw.icons, git: raw.git },
            git: GitOptions { enabled: raw.git, show_branch: raw.git_branch },
            output,
            runtime: RuntimeOptions {
                measure_time: raw.time,
                verbose: raw.verbose,
                root: raw.root,
            },
        })
    }
}

} // verus!
