//! Where modules come from: the module directories listed by the loader.
//! Reading the directories is left to the caller; this module turns what was
//! read into `DiscoveredModule`s.
use vstd::prelude::*;
use crate::manifest::{Manifest, broken_manifest};
use crate::types::{DiscoveredModule, ModuleStatus};
use crate::text::{chars_of, chars_equal, find_from, first_index_of, lemma_first_index_is, lemma_first_index_none, push_str};
use crate::paths::{file_name_of, path_file_name};
use crate::version::{parse_version_lenient, lenient_version};
use crate::graph::module_name_chars;

verus! {

/// An ASCII digit.
pub open spec fn is_digit(c: char) -> bool {
    '0' <= c && c <= '9'
}

/// The value of a string of decimal digits.
pub open spec fn decimal_value(s: Seq<char>) -> nat
    decreases s.len(),
{
    if s.len() == 0 {
        0
    } else {
        10 * decimal_value(s.drop_last()) + ((s.last() as int) - ('0' as int)) as nat
    }
}

/// The text without a leading `+`.
pub open spec fn unsigned_part(s: Seq<char>) -> Seq<char> {
    if s.len() > 0 && s[0] == '+' { s.drop_first() } else { s }
}

/// Every character is a digit.
pub open spec fn all_digits(d: Seq<char>) -> bool {
    forall|i: int| 0 <= i < d.len() ==> is_digit(#[trigger] d[i])
}

/// What `str::parse::<u32>` gives: an optional `+`, then one or more
/// decimal digits whose value fits in a `u32`.
pub open spec fn parse_u32(s: Seq<char>) -> Option<u32> {
    let d = unsigned_part(s);
    if d.len() > 0 && all_digits(d) && decimal_value(d) <= u32::MAX {
        Some(decimal_value(d) as u32)
    } else {
        None
    }
}

/// The part of a directory name before its first `_` (all of it when there
/// is none).
pub open spec fn name_prefix(s: Seq<char>) -> Seq<char> {
    let k = first_index_of(s, '_');
    if k < 0 { s } else { s.subrange(0, k) }
}

/// The load order a directory name gives, as in `05_list`.
pub open spec fn spec_prefix_order(directory_name: Seq<char>) -> Option<u32> {
    parse_u32(name_prefix(directory_name))
}

/// The name of a module directory: its last component, or `<unknown>`.
pub open spec fn directory_name(path: Seq<char>) -> Seq<char> {
    match path_file_name(path) {
        Some(n) => n,
        None => "<unknown>"@,
    }
}

/// The message for a version that cannot be read.
pub open spec fn bad_version_message(version: Seq<char>) -> Seq<char> {
    "invalid version string: '"@ + version + "' (expected semver, e.g, 1.2.3)"@
}

/// The status a module starts with, given its version.
pub open spec fn version_status(status: ModuleStatus, version: Seq<char>) -> bool {
    if lenient_version(version) is Ok {
        status is Loaded
    } else {
        status matches ModuleStatus::FailedManifest(e) && e@ == bad_version_message(version)
    }
}

/// The module read from the directory `path`, the `directory_index`-th of
/// the loader's list, whose `module.toml` gave `manifest`.
pub open spec fn module_read(r: DiscoveredModule, path: Seq<char>, directory_index: usize, manifest: Result<Manifest, String>) -> bool {
    &&& r.path@ == path
    &&& r.dir_index == directory_index
    &&& match manifest {
        Ok(m) => {
            &&& r.manifest == m
            &&& r.prefix_order == spec_prefix_order(directory_name(path))
            &&& version_status(r.status, m.module.version@)
        },
        Err(e) => {
            &&& r.prefix_order is None
            &&& broken_manifest(r.manifest, directory_name(path))
            &&& r.status matches ModuleStatus::FailedManifest(x) && x@ == e@
        },
    }
}

/// Module `i` is the last one of its name.
pub open spec fn last_of_name(s: Seq<DiscoveredModule>, i: int) -> bool {
    forall|j: int| i < j < s.len() ==> (#[trigger] s[j]).name() != s[i].name()
}

/// The modules from `lo` on that are the last of their name, in order.
pub open spec fn last_of_each_from(s: Seq<DiscoveredModule>, lo: int) -> Seq<DiscoveredModule>
    decreases s.len() - lo,
{
    if lo < 0 || lo >= s.len() {
        Seq::empty()
    } else if last_of_name(s, lo) {
        seq![s[lo]] + last_of_each_from(s, lo + 1)
    } else {
        last_of_each_from(s, lo + 1)
    }
}

/// The modules that are the last of their name, in order.
pub open spec fn last_of_each(s: Seq<DiscoveredModule>) -> Seq<DiscoveredModule> {
    last_of_each_from(s, 0)
}

/// The load order that a module directory's name gives: the number before
/// its first `_`, if that is one.
pub fn prefix_order(directory_name: &str) -> (r: Option<u32>)
    ensures
        r == spec_prefix_order(directory_name@),
{
    let v = chars_of(directory_name);
    let n = v.len();
    let k = find_from(&v, 0, n, '_');
    proof {
        if k < n {
            lemma_first_index_is(v@, '_', k as int);
        } else {
            lemma_first_index_none(v@, '_');
            assert(v@.subrange(0, n as int) == v@);
        }
    }
    let ghost piece = v@.subrange(0, k as int);
    assert(piece == name_prefix(directory_name@));
    let start: usize = if k > 0 && v[0] == '+' { 1 } else { 0 };
    let ghost d = v@.subrange(start as int, k as int);
    assert(d == unsigned_part(piece));
    if start == k {
        return None;
    }
    let mut value: u64 = 0;
    let mut overflow = false;
    let mut i: usize = start;
    while i < k
        invariant
            start <= i <= k <= n == v@.len(),
            d == v@.subrange(start as int, k as int),
            piece == name_prefix(directory_name@),
            d == unsigned_part(piece),
            forall|j: int| start <= j < i ==> is_digit(v@[j]),
            !overflow ==> value == decimal_value(v@.subrange(start as int, i as int)) && value <= u32::MAX,
            overflow ==> decimal_value(v@.subrange(start as int, i as int)) > u32::MAX,
        decreases k - i,
    {
        let c = v[i];
        if !('0' <= c && c <= '9') {
            assert(d[i - start] == c);
            assert(!is_digit(d[i - start]));
            assert(!all_digits(d));
            return None;
        }
        assert(v@.subrange(start as int, i + 1).drop_last() == v@.subrange(start as int, i as int));
        if !overflow {
            value = value * 10 + ((c as u32) - ('0' as u32)) as u64;
            if value > 4294967295 {
                overflow = true;
            }
        }
        i += 1;
    }
    assert forall|j: int| 0 <= j < d.len() implies is_digit(#[trigger] d[j]) by {
        assert(d[j] == v@[start + j]);
    }
    assert(d == v@.subrange(start as int, i as int));
    if overflow {
        None
    } else {
        Some(value as u32)
    }
}

/// The status of a module with the given version: loaded, or a manifest
/// failure when the version cannot be read.
pub fn validate_version(version: &str) -> (r: ModuleStatus)
    ensures
        version_status(r, version@),
{
    if parse_version_lenient(version).is_ok() {
        ModuleStatus::Loaded
    } else {
        let mut msg = String::new();
        push_str(&mut msg, "invalid version string: '");
        push_str(&mut msg, version);
        push_str(&mut msg, "' (expected semver, e.g, 1.2.3)");
        ModuleStatus::FailedManifest(msg)
    }
}

/// The module in directory `path`, the `directory_index`-th of the loader's
/// list, given what reading its `module.toml` gave: the manifest, or the
/// message of the failure.
pub fn read_module(path: String, directory_index: usize, manifest: Result<Manifest, String>) -> (r: DiscoveredModule)
    ensures
        module_read(r, path@, directory_index, manifest),
{
    let name = match file_name_of(path.as_str()) {
        Some(n) => n,
        None => "<unknown>".to_string(),
    };
    match manifest {
        Ok(m) => {
            let prefix = prefix_order(name.as_str());
            let status = validate_version(m.module.version.as_str());
            DiscoveredModule { path, manifest: m, prefix_order: prefix, dir_index: directory_index, status }
        },
        Err(e) => {
            let placeholder = Manifest::broken(name);
            DiscoveredModule {
                path,
                manifest: placeholder,
                prefix_order: None,
                dir_index: directory_index,
                status: ModuleStatus::FailedManifest(e),
            }
        },
    }
}

/// Keeps, of the modules that share a name, only the last one; the order is
/// kept.
pub fn dedup_modules(modules: &mut Vec<DiscoveredModule>)
    ensures
        final(modules)@ == last_of_each(old(modules)@),
{
    let ghost s = modules@;
    let n = modules.len();
    let names = module_name_chars(modules);
    let mut keep: Vec<bool> = Vec::new();
    let mut i: usize = 0;
    while i < n
        invariant
            n == s.len(),
            modules@ == s,
            names@.len() == n,
            forall|t: int| 0 <= t < n ==> (#[trigger] names@[t])@ == s[t].name(),
            i <= n,
            keep@.len() == i,
            forall|t: int| 0 <= t < i ==> (#[trigger] keep@[t]) == last_of_name(s, t),
        decreases n - i,
    {
        let mut later = false;
        let mut j: usize = i + 1;
        while j < n
            invariant
                n == s.len(),
                names@.len() == n,
                forall|t: int| 0 <= t < n ==> (#[trigger] names@[t])@ == s[t].name(),
                i < j <= n,
                later == exists|t: int| i < t < j && (#[trigger] s[t]).name() == s[i as int].name(),
            decreases n - j,
        {
            if chars_equal(&names[j], &names[i]) {
                later = true;
            }
            j += 1;
        }
        keep.push(!later);
        i += 1;
    }
    let mut i: usize = n;
    while i > 0
        invariant
            n == s.len(),
            keep@.len() == n,
            forall|t: int| 0 <= t < n ==> (#[trigger] keep@[t]) == last_of_name(s, t),
            i <= n,
            modules@ == s.subrange(0, i as int) + last_of_each_from(s, i as int),
        decreases i,
    {
        let ghost before = modules@;
        assert(s.subrange(0, i as int) == s.subrange(0, i - 1).push(s[i - 1]));
        if keep[i - 1] {
            assert(modules@ == s.subrange(0, i - 1) + last_of_each_from(s, i - 1));
        } else {
            modules.remove(i - 1);
            assert(modules@ == s.subrange(0, i - 1) + last_of_each_from(s, i - 1));
        }
        i -= 1;
    }
    assert(s.subrange(0, 0) + last_of_each_from(s, 0) == last_of_each(s));
}

/// The module directories of the loader, in order.
pub struct LocalSource {
    pub dirs: Vec<String>,
}

impl LocalSource {
    /// A source over the given module directories.
    pub fn new(dirs: Vec<String>) -> (r: LocalSource)
        ensures
            r.dirs@ == dirs@,
    {
        LocalSource { dirs }
    }
}

/// Something that can list modules.
pub trait ModuleSource {
    /// The modules found, or the message of what went wrong.
    fn fetch_modules(&self) -> Result<Vec<DiscoveredModule>, String>;
}

} // verus!
