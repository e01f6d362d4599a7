//! What `gai list` shows of a module.
use vstd::prelude::*;
use crate::types::{DiscoveredModule, ModuleStatus, Tone};
use crate::manifest::{Dependency, LoadMode};
use crate::text::{push_str, join, join_strings};
use crate::validator::string_views;

verus! {

/// A dependency entry as shown: `name@constraint`, or the name alone.
pub open spec fn dep_text(d: Dependency) -> Seq<char> {
    match d.version {
        Some(v) => d.name@ + "@"@ + v@,
        None => d.name@,
    }
}

/// The dependency entries of a module as shown.
pub open spec fn dep_texts(m: DiscoveredModule) -> Seq<Seq<char>> {
    m.manifest.module.deps@.map_values(|d: Dependency| dep_text(d))
}

/// The text of each dependency entry of a module.
pub fn dependency_texts(module: &DiscoveredModule) -> (r: Vec<String>)
    ensures
        string_views(r@) == dep_texts(*module),
{
    let deps = &module.manifest.module.deps;
    let mut r: Vec<String> = Vec::new();
    let mut k: usize = 0;
    while k < deps.len()
        invariant
            deps@ == module.manifest.module.deps@,
            k <= deps@.len(),
            string_views(r@) == dep_texts(*module).take(k as int),
        decreases deps.len() - k,
    {
        let d = &deps[k];
        let mut t = String::new();
        push_str(&mut t, d.name.as_str());
        match &d.version {
            Some(v) => {
                push_str(&mut t, "@");
                push_str(&mut t, v.as_str());
            },
            None => {},
        }
        let ghost before = r@;
        r.push(t);
        assert(string_views(r@) == string_views(before).push(t@));
        assert(dep_texts(*module).take(k + 1) == dep_texts(*module).take(k as int).push(dep_text(deps@[k as int])));
        k += 1;
    }
    assert(dep_texts(*module).take(deps@.len() as int) == dep_texts(*module));
    r
}

/// The dependency list as `gai list` shows it: `[a@>=1.0, b]`, or `[]`.
pub fn format_dependencies(module: &DiscoveredModule) -> (r: String)
    ensures
        r@ == if module.manifest.module.deps@.len() == 0 { "[]"@ } else { "["@ + join(dep_texts(*module), ", "@) + "]"@ },
{
    if module.manifest.module.deps.len() == 0 {
        let mut s = String::new();
        push_str(&mut s, "[]");
        return s;
    }
    let texts = dependency_texts(module);
    let joined = join_strings(&texts, ", ");
    let mut s = String::new();
    push_str(&mut s, "[");
    push_str(&mut s, joined.as_str());
    push_str(&mut s, "]");
    s
}

/// The status word `gai list` shows, and its colour: a loaded module is
/// `lazy` when it loads on demand (load mode `lazy`, or `defer_on_cmd`),
/// `event` when it waits for an event, else `loaded`.
pub open spec fn status_word(m: DiscoveredModule) -> (Seq<char>, Tone) {
    match m.status {
        ModuleStatus::Loaded => if m.manifest.load matches Some(l) && l.load_mode == LoadMode::Lazy || m.manifest.api.defer_on_cmd {
            ("lazy"@, Tone::Cyan)
        } else if m.manifest.load matches Some(l) && l.load_mode == LoadMode::Event {
            ("event"@, Tone::Blue)
        } else {
            ("loaded"@, Tone::Green)
        },
        ModuleStatus::WarnDuplicateDep(_) => ("warn"@, Tone::Yellow),
        ModuleStatus::SkippedMissingCmd(_) | ModuleStatus::SkippedMissingAnyCmd(_) | ModuleStatus::SkippedMissingDep(_) => ("skipped"@, Tone::Yellow),
        ModuleStatus::SkippedCycle(_) => ("cycle"@, Tone::Red),
        ModuleStatus::SkippedBadConstraint(_) | ModuleStatus::FailedManifest(_) => ("error"@, Tone::Red),
    }
}

/// The status word of a module in `gai list`, and its colour.
pub fn format_status(module: &DiscoveredModule) -> (r: (&'static str, Tone))
    ensures
        (r.0@, r.1) == status_word(*module),
{
    match &module.status {
        ModuleStatus::Loaded => {
            let mode = module.manifest.load_mode();
            if mode == LoadMode::Lazy || module.manifest.api.defer_on_cmd {
                ("lazy", Tone::Cyan)
            } else if mode == LoadMode::Event {
                ("event", Tone::Blue)
            } else {
                ("loaded", Tone::Green)
            }
        },
        ModuleStatus::WarnDuplicateDep(_) => ("warn", Tone::Yellow),
        ModuleStatus::SkippedMissingCmd(_) | ModuleStatus::SkippedMissingAnyCmd(_) | ModuleStatus::SkippedMissingDep(_) => ("skipped", Tone::Yellow),
        ModuleStatus::SkippedCycle(_) => ("cycle", Tone::Red),
        ModuleStatus::SkippedBadConstraint(_) | ModuleStatus::FailedManifest(_) => ("error", Tone::Red),
    }
}

/// The line `gai list` shows under a module that is not loaded, and its
/// colour.
pub open spec fn reason_line(status: ModuleStatus) -> Option<(Seq<char>, Tone)> {
    match status {
        ModuleStatus::SkippedMissingCmd(c) => Some(("\u{21b3} missing required command: "@ + c@, Tone::Yellow)),
        ModuleStatus::SkippedMissingAnyCmd(cs) => Some(("\u{21b3} none of these commands found: "@ + join(string_views(cs@), ", "@), Tone::Yellow)),
        ModuleStatus::SkippedMissingDep(d) => Some(("\u{21b3} missing or skipped dependency: "@ + d@, Tone::Yellow)),
        ModuleStatus::SkippedBadConstraint(d) => Some(("\u{21b3} bad version constraint: "@ + d@, Tone::Red)),
        ModuleStatus::SkippedCycle(p) => Some(("\u{21b3} circular dependency: "@ + join(string_views(p@), " \u{2192} "@), Tone::Red)),
        ModuleStatus::FailedManifest(d) => Some(("\u{21b3} manifest error: "@ + d@, Tone::Red)),
        ModuleStatus::WarnDuplicateDep(d) => Some(("\u{21b3} duplicate dep entry in module.toml: '"@ + d@ + "'"@, Tone::Yellow)),
        ModuleStatus::Loaded => None,
    }
}

fn text_with(prefix: &str, value: &str) -> (r: String)
    ensures
        r@ == prefix@ + value@,
{
    let mut s = String::new();
    push_str(&mut s, prefix);
    push_str(&mut s, value);
    s
}

/// The line `gai list` shows under a module that is not loaded.
pub fn status_reason(status: &ModuleStatus) -> (r: Option<(String, Tone)>)
    ensures
        match r {
            Some((t, tone)) => reason_line(*status) == Some((t@, tone)),
            None => reason_line(*status) is None,
        },
{
    match status {
        ModuleStatus::SkippedMissingCmd(c) => Some((text_with("\u{21b3} missing required command: ", c.as_str()), Tone::Yellow)),
        ModuleStatus::SkippedMissingAnyCmd(cs) => {
            let j = join_strings(cs, ", ");
            Some((text_with("\u{21b3} none of these commands found: ", j.as_str()), Tone::Yellow))
        },
        ModuleStatus::SkippedMissingDep(d) => Some((text_with("\u{21b3} missing or skipped dependency: ", d.as_str()), Tone::Yellow)),
        ModuleStatus::SkippedBadConstraint(d) => Some((text_with("\u{21b3} bad version constraint: ", d.as_str()), Tone::Red)),
        ModuleStatus::SkippedCycle(p) => {
            let j = join_strings(p, " \u{2192} ");
            Some((text_with("\u{21b3} circular dependency: ", j.as_str()), Tone::Red))
        },
        ModuleStatus::FailedManifest(d) => Some((text_with("\u{21b3} manifest error: ", d.as_str()), Tone::Red)),
        ModuleStatus::WarnDuplicateDep(d) => {
            let mut t = text_with("\u{21b3} duplicate dep entry in module.toml: '", d.as_str());
            push_str(&mut t, "'");
            Some((t, Tone::Yellow))
        },
        ModuleStatus::Loaded => None,
    }
}

} // verus!
