//! What `gai info` shows of a module.
use vstd::prelude::*;
use crate::types::{DiscoveredModule, ModuleStatus, Tone};
use crate::text::{push_str, join, join_strings};
use crate::validator::string_views;
use crate::list::{dep_texts, dependency_texts};

verus! {

/// The dependency list as `gai info` shows it: `a@>=1.0, b`, or a dash.
pub fn format_dependencies(module: &DiscoveredModule) -> (r: String)
    ensures
        r@ == if module.manifest.module.deps@.len() == 0 { "\u{2014}"@ } else { join(dep_texts(*module), ", "@) },
{
    if module.manifest.module.deps.len() == 0 {
        let mut s = String::new();
        push_str(&mut s, "\u{2014}");
        return s;
    }
    let texts = dependency_texts(module);
    join_strings(&texts, ", ")
}

/// The status word `gai info` shows, and its colour.
pub open spec fn info_status_word(status: ModuleStatus) -> (Seq<char>, Tone) {
    match status {
        ModuleStatus::Loaded => ("loaded"@, Tone::Green),
        ModuleStatus::WarnDuplicateDep(_) => ("warn"@, Tone::Yellow),
        ModuleStatus::SkippedBadConstraint(_) | ModuleStatus::FailedManifest(_) => ("error"@, Tone::Red),
        ModuleStatus::SkippedCycle(_) => ("cycle"@, Tone::Red),
        _ => ("skipped"@, Tone::Yellow),
    }
}

/// The status word of a module in `gai info`, and its colour.
pub fn status_word(status: &ModuleStatus) -> (r: (&'static str, Tone))
    ensures
        (r.0@, r.1) == info_status_word(*status),
{
    match status {
        ModuleStatus::Loaded => ("loaded", Tone::Green),
        ModuleStatus::WarnDuplicateDep(_) => ("warn", Tone::Yellow),
        ModuleStatus::SkippedBadConstraint(_) | ModuleStatus::FailedManifest(_) => ("error", Tone::Red),
        ModuleStatus::SkippedCycle(_) => ("cycle", Tone::Red),
        _ => ("skipped", Tone::Yellow),
    }
}

/// A line of `gai info` about why a module is not loaded: a label, the
/// text before the value, the value (shown in colour) and the text after.
pub struct StatusNote {
    pub label: &'static str,
    pub before: &'static str,
    pub value: String,
    pub after: &'static str,
    pub tone: Tone,
}

/// The parts of the status line of `gai info`: label, text before, value,
/// text after, colour.
pub open spec fn note_parts(status: ModuleStatus) -> Option<(Seq<char>, Seq<char>, Seq<char>, Seq<char>, Tone)> {
    match status {
        ModuleStatus::SkippedMissingCmd(c) => Some(("skip reason"@, "missing required command: "@, c@, ""@, Tone::Yellow)),
        ModuleStatus::SkippedMissingAnyCmd(cs) => Some(("skip reason"@, "none of these commands found: "@, join(string_views(cs@), ", "@), ""@, Tone::Yellow)),
        ModuleStatus::SkippedMissingDep(d) => Some(("skip reason"@, "missing or skipped dependency: "@, d@, ""@, Tone::Yellow)),
        ModuleStatus::SkippedBadConstraint(d) => Some(("error"@, "bad version constraint: "@, d@, ""@, Tone::Red)),
        ModuleStatus::SkippedCycle(p) => Some(("error"@, "circular dependency: "@, join(string_views(p@), " \u{2192} "@), ""@, Tone::Red)),
        ModuleStatus::FailedManifest(d) => Some(("error"@, ""@, d@, ""@, Tone::Red)),
        ModuleStatus::WarnDuplicateDep(d) => Some(("warning"@, "duplicate dep entry in module.toml: '"@, d@, "'"@, Tone::Yellow)),
        ModuleStatus::Loaded => None,
    }
}

fn copy(s: &str) -> (r: String)
    ensures
        r@ == s@,
{
    let mut t = String::new();
    push_str(&mut t, s);
    t
}

/// The status line of `gai info` for a module that is not loaded.
pub fn status_note(status: &ModuleStatus) -> (r: Option<StatusNote>)
    ensures
        match r {
            Some(n) => note_parts(*status) == Some((n.label@, n.before@, n.value@, n.after@, n.tone)),
            None => note_parts(*status) is None,
        },
{
    match status {
        ModuleStatus::SkippedMissingCmd(c) => Some(StatusNote { label: "skip reason", before: "missing required command: ", value: copy(c.as_str()), after: "", tone: Tone::Yellow }),
        ModuleStatus::SkippedMissingAnyCmd(cs) => Some(StatusNote { label: "skip reason", before: "none of these commands found: ", value: join_strings(cs, ", "), after: "", tone: Tone::Yellow }),
        ModuleStatus::SkippedMissingDep(d) => Some(StatusNote { label: "skip reason", before: "missing or skipped dependency: ", value: copy(d.as_str()), after: "", tone: Tone::Yellow }),
        ModuleStatus::SkippedBadConstraint(d) => Some(StatusNote { label: "error", before: "bad version constraint: ", value: copy(d.as_str()), after: "", tone: Tone::Red }),
        ModuleStatus::SkippedCycle(p) => Some(StatusNote { label: "error", before: "circular dependency: ", value: join_strings(p, " \u{2192} "), after: "", tone: Tone::Red }),
        ModuleStatus::FailedManifest(d) => Some(StatusNote { label: "error", before: "", value: copy(d.as_str()), after: "", tone: Tone::Red }),
        ModuleStatus::WarnDuplicateDep(d) => Some(StatusNote { label: "warning", before: "duplicate dep entry in module.toml: '", value: copy(d.as_str()), after: "'", tone: Tone::Yellow }),
        ModuleStatus::Loaded => None,
    }
}

/// The tags of a module as shown: joined by `, `, or a dash.
pub fn tags_text(module: &DiscoveredModule) -> (r: String)
    ensures
        r@ == if module.manifest.module.tags@.len() == 0 { "\u{2014}"@ } else { join(string_views(module.manifest.module.tags@), ", "@) },
{
    if module.manifest.module.tags.len() == 0 {
        copy("\u{2014}")
    } else {
        join_strings(&module.manifest.module.tags, ", ")
    }
}

/// The description of a module, or a dash.
pub fn description_text(module: &DiscoveredModule) -> (r: String)
    ensures
        r@ == match module.manifest.module.description { Some(d) => d@, None => "\u{2014}"@ },
{
    match &module.manifest.module.description {
        Some(d) => copy(d.as_str()),
        None => copy("\u{2014}"),
    }
}

/// Whether a module declares a public API: functions, variables or
/// aliases.
pub fn has_public_api(module: &DiscoveredModule) -> (r: bool)
    ensures
        r == (module.manifest.api.functions@.len() > 0 || module.manifest.api.variables@.len() > 0
            || module.manifest.api.aliases@.len() > 0),
{
    module.manifest.api.functions.len() > 0 || module.manifest.api.variables.len() > 0 || module.manifest.api.aliases.len() > 0
}

} // verus!
