//! A module found on disk, together with what the loader decided about it.
use vstd::prelude::*;
use crate::manifest::Manifest;

verus! {

/// Why a module is, or is not, loaded.
#[derive(Debug, Clone, PartialEq)]
pub enum ModuleStatus {
    Loaded,
    /// One of the `requires_cmd` binaries was not found in PATH.
    SkippedMissingCmd(String),
    /// None of the `requires_any_cmd` binaries were found in PATH.
    SkippedMissingAnyCmd(Vec<String>),
    /// A declared dependency was not loaded (missing or itself skipped).
    SkippedMissingDep(String),
    /// A declared dependency has a version constraint that could not be parsed.
    SkippedBadConstraint(String),
    /// This module is part of a dependency cycle and cannot be loaded.
    /// The list holds the cycle path, e.g. ["a", "b", "c", "a"].
    SkippedCycle(Vec<String>),
    /// The module.toml for this module could not be parsed.
    FailedManifest(String),
    /// A dep entry is listed more than once in module.toml.
    WarnDuplicateDep(String),
}

impl ModuleStatus {
    /// True exactly for `Loaded`.
    pub fn is_loaded(&self) -> (r: bool)
        ensures
            r == (*self is Loaded),
    {
        matches!(self, ModuleStatus::Loaded)
    }

    /// True for every status but `Loaded`.
    pub fn is_skipped(&self) -> (r: bool)
        ensures
            r == !(*self is Loaded),
    {
        !self.is_loaded()
    }
}

/// The colour a piece of text is shown in.
#[derive(Debug, Clone, Copy, PartialEq, Eq, Structural)]
pub enum Tone {
    Green,
    Yellow,
    Red,
    Cyan,
    Blue,
}

/// A module directory holding a `module.toml`.
///
/// `path` is the module directory in normal form: its components joined by
/// `/`, with no empty or `.` components (a leading `/` marks an absolute
/// path). `prefix_order` is the number before the first `_` of the
/// directory's name, and `dir_index` the position of the module directory
/// in the loader's list.
#[derive(Debug, Clone, PartialEq)]
pub struct DiscoveredModule {
    pub path: String,
    pub manifest: Manifest,
    pub prefix_order: Option<u32>,
    pub dir_index: usize,
    pub status: ModuleStatus,
}

impl DiscoveredModule {
    /// The module's name, as its manifest gives it.
    pub open spec fn name(self) -> Seq<char> {
        self.manifest.module.name@
    }
}

/// The names of a list of modules.
pub open spec fn module_names(modules: Seq<DiscoveredModule>) -> Seq<Seq<char>> {
    modules.map_values(|m: DiscoveredModule| m.name())
}

} // verus!
