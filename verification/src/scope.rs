//! What a scan covers and how its report is written.

use vstd::prelude::*;

use crate::text::same_text;

verus! {

/// The projects whose sessions are scanned.
#[derive(Debug)]
pub enum ProjectScope {
    /// All of them.
    All,
    /// Those that the given text selects.
    Named(String),
    /// The one that the current directory belongs to.
    CurrentDirectory,
}

/// The projects to scan. All of them goes before a named one, and without either it is the current
/// directory's.
pub fn project_scope(project: Option<&str>, all: bool) -> (r: ProjectScope)
    ensures
        match r {
            ProjectScope::All => all,
            ProjectScope::Named(name) => !all && project is Some && name@ == project->0@,
            ProjectScope::CurrentDirectory => !all && project is None,
        },
{
    if all {
        return ProjectScope::All;
    }
    match project {
        Some(name) => ProjectScope::Named(name.to_owned()),
        None => ProjectScope::CurrentDirectory,
    }
}

/// How a report is written.
#[derive(Clone, Copy, Debug, PartialEq, Eq, Structural)]
pub enum OutputFormat {
    Json,
    Text,
}

/// The way of writing that `format` names: `json`, and text under every other name.
pub fn output_format(format: &str) -> (r: OutputFormat)
    ensures
        r == (if format@ == "json"@ {
            OutputFormat::Json
        } else {
            OutputFormat::Text
        }),
{
    if same_text(format, "json") {
        OutputFormat::Json
    } else {
        OutputFormat::Text
    }
}

} // verus!
