//! The command line's decisions, apart from its I/O: the output format and
//! its default file extension, which overlay run the flags ask for, which
//! configuration file sits beside a project, and where the scrubber opens.
use vstd::prelude::*;

use crate::eval::ScenarioFormat;
use crate::text::same_text;

verus! {

/// An output format.
#[derive(Debug, Clone, Copy, PartialEq, Eq, Structural)]
pub enum Format {
    /// Graphviz DOT.
    Dot,
    /// The JSON graph.
    Json,
    /// The self-contained interactive HTML viewer.
    Html,
}

/// The default output file extension of a format.
pub open spec fn format_ext(f: Format) -> Seq<char> {
    match f {
        Format::Dot => "dot"@,
        Format::Json => "json"@,
        Format::Html => "html"@,
    }
}

impl Format {
    /// Default output file extension for this format.
    pub fn ext(self) -> (e: &'static str)
        ensures
            e@ == format_ext(self),
    {
        match self {
            Format::Dot => "dot",
            Format::Json => "json",
            Format::Html => "html",
        }
    }
}

/// The default output file name for a format: `m1-graph.<ext>`.
pub fn default_out(f: Format) -> (name: String)
    ensures
        name@ == "m1-graph."@ + format_ext(f),
{
    let mut name = crate::text::owned("m1-graph.");
    name.append(f.ext());
    proof {
        reveal_strlit("m1-graph.");
    }
    name
}

/// Which overlay run the command line asks for.
#[derive(Debug, Clone, Copy, PartialEq, Eq, Structural)]
pub enum OverlayRequest {
    /// No overlay: the structural graph alone.
    GraphOnly,
    /// A value overlay from a scenario run.
    Scenario,
    /// A value overlay from a recorded log.
    Log,
    /// A diff overlay: a recorded log with channel overrides.
    Diff,
}

/// A usage error in the overlay flags.
#[derive(Debug, Clone, Copy, PartialEq, Eq, Structural)]
pub enum UsageError {
    /// A scenario and a log were both given; they are mutually exclusive.
    ScenarioWithLog,
    /// Overrides were given without a log to replay.
    OverrideWithoutLog,
}

/// The overlay run that the flags ask for, or the usage error they make: a
/// scenario and a log together are refused; overrides need a log, and turn a
/// log's value overlay into a diff.
pub open spec fn requested_overlay(scenario: bool, log: bool, overrides: nat) -> Result<
    OverlayRequest,
    UsageError,
> {
    if scenario && log {
        Err(UsageError::ScenarioWithLog)
    } else if overrides > 0 && !log {
        Err(UsageError::OverrideWithoutLog)
    } else if scenario {
        Ok(OverlayRequest::Scenario)
    } else if log && overrides > 0 {
        Ok(OverlayRequest::Diff)
    } else if log {
        Ok(OverlayRequest::Log)
    } else {
        Ok(OverlayRequest::GraphOnly)
    }
}

/// Decide the overlay run from whether a scenario was given, whether a log was
/// given, and how many overrides were given.
pub fn overlay_request(scenario: bool, log: bool, overrides: usize) -> (r: Result<
    OverlayRequest,
    UsageError,
>)
    ensures
        r == requested_overlay(scenario, log, overrides as nat),
{
    if scenario && log {
        Err(UsageError::ScenarioWithLog)
    } else if overrides > 0 && !log {
        Err(UsageError::OverrideWithoutLog)
    } else if scenario {
        Ok(OverlayRequest::Scenario)
    } else if log && overrides > 0 {
        Ok(OverlayRequest::Diff)
    } else if log {
        Ok(OverlayRequest::Log)
    } else {
        Ok(OverlayRequest::GraphOnly)
    }
}

/// The scenario format a file extension names: `toml` or `json`.
pub open spec fn scenario_format_of(ext: Seq<char>) -> Option<ScenarioFormat> {
    if ext == "toml"@ {
        Some(ScenarioFormat::Toml)
    } else if ext == "json"@ {
        Some(ScenarioFormat::Json)
    } else {
        None
    }
}

/// The scenario format of a scenario file, from its extension.
pub fn scenario_format(ext: &str) -> (r: Option<ScenarioFormat>)
    ensures
        r == scenario_format_of(ext@),
{
    if same_text(ext, "toml") {
        proof {
            reveal_strlit("toml");
        }
        Some(ScenarioFormat::Toml)
    } else if same_text(ext, "json") {
        proof {
            reveal_strlit("json");
            reveal_strlit("toml");
        }
        Some(ScenarioFormat::Json)
    } else {
        None
    }
}

/// The configuration file to use when none was named: the one `.m1cfg` file
/// beside the project, if there is exactly one; several are ambiguous and none
/// is guessed.
pub fn sibling_config(candidates: Vec<String>) -> (r: Option<String>)
    ensures
        candidates@.len() == 1 ==> r == Some(candidates@[0]),
        candidates@.len() != 1 ==> r is None,
{
    let mut candidates = candidates;
    if candidates.len() == 1 {
        candidates.pop()
    } else {
        None
    }
}

/// The tick the viewer's scrubber opens on when no time was asked for: the
/// last tick of an axis of `n_ticks` ticks, or none for an empty axis.
pub fn default_start_tick(n_ticks: usize) -> (r: Option<usize>)
    ensures
        n_ticks == 0 ==> r is None,
        n_ticks > 0 ==> r == Some((n_ticks - 1) as usize),
{
    if n_ticks == 0 {
        None
    } else {
        Some(n_ticks - 1)
    }
}

} // verus!
