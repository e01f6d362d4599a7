//! `gai update`: which modules are managed, how they are grouped by
//! repository, and how the outcome of a pull is read.
use vstd::prelude::*;
use crate::types::DiscoveredModule;
use crate::text::{chars_of, has_prefix, range_has_prefix, str_equal, push_str};
use crate::install::opt_view;

verus! {

/// Module `m` was installed from a repository and is to be updated: it has
/// a `[source]`, and is the one named when a name is given.
pub open spec fn is_managed(m: DiscoveredModule, name: Option<Seq<char>>) -> bool {
    &&& m.manifest.source is Some
    &&& match name {
        Some(n) => m.name() == n,
        None => true,
    }
}

/// The managed modules, by index, in order.
pub fn managed_modules(modules: &Vec<DiscoveredModule>, module_name: &Option<String>) -> (r: Vec<usize>)
    ensures
        forall|k: int| 0 <= k < r@.len() ==> (#[trigger] r@[k]) < modules@.len() && is_managed(modules@[r@[k] as int], opt_view(*module_name)),
        forall|a: int, b: int| 0 <= a < b < r@.len() ==> r@[a] < r@[b],
        forall|i: int| 0 <= i < modules@.len() && is_managed(modules@[i], opt_view(*module_name)) ==> r@.contains(i as usize),
{
    let mut r: Vec<usize> = Vec::new();
    let mut i: usize = 0;
    while i < modules.len()
        invariant
            i <= modules@.len(),
            forall|k: int| 0 <= k < r@.len() ==> (#[trigger] r@[k]) < i && is_managed(modules@[r@[k] as int], opt_view(*module_name)),
            forall|a: int, b: int| 0 <= a < b < r@.len() ==> r@[a] < r@[b],
            forall|j: int| 0 <= j < i && is_managed(modules@[j], opt_view(*module_name)) ==> r@.contains(j as usize),
        decreases modules.len() - i,
    {
        let m = &modules[i];
        let named = match module_name {
            Some(n) => str_equal(m.manifest.module.name.as_str(), n.as_str()),
            None => true,
        };
        let ghost before = r@;
        if m.manifest.source.is_some() && named {
            r.push(i);
            assert(r@.last() == i);
        }
        assert forall|j: int| 0 <= j < i + 1 && is_managed(modules@[j], opt_view(*module_name)) implies r@.contains(j as usize) by {
            if j < i {
                let t = choose|t: int| 0 <= t < before.len() && before[t] == j as usize;
                assert(r@[t] == j as usize);
            }
        }
        i += 1;
    }
    r
}

/// The width of the name column: the longest name (in bytes) among the
/// given modules, and at least 12.
pub open spec fn name_width(s: Seq<DiscoveredModule>, idx: Seq<usize>, hi: int) -> nat
    decreases hi,
{
    if hi <= 0 {
        12
    } else {
        let w = name_width(s, idx, hi - 1);
        let b = vstd::utf8::encode_utf8(s[idx[hi - 1] as int].name()).len() as usize;
        if b > w { b as nat } else { w }
    }
}

/// The width of the name column for the given modules.
pub fn column_width(modules: &Vec<DiscoveredModule>, idx: &Vec<usize>) -> (r: usize)
    requires
        forall|k: int| 0 <= k < idx@.len() ==> (#[trigger] idx@[k]) < modules@.len(),
    ensures
        r == name_width(modules@, idx@, idx@.len() as int),
{
    let mut w: usize = 12;
    let mut k: usize = 0;
    while k < idx.len()
        invariant
            forall|q: int| 0 <= q < idx@.len() ==> (#[trigger] idx@[q]) < modules@.len(),
            k <= idx@.len(),
            w == name_width(modules@, idx@, k as int),
        decreases idx.len() - k,
    {
        let l = modules[idx[k]].manifest.module.name.as_str().len();
        assert(l == vstd::utf8::encode_utf8(modules@[idx@[k as int] as int].name()).len() as usize);
        if l > w {
            w = l;
        }
        k += 1;
    }
    w
}

/// `p` occurs in `s`.
pub open spec fn occurs_in(s: Seq<char>, p: Seq<char>) -> bool {
    exists|i: int| 0 <= i <= s.len() && #[trigger] has_prefix(s.subrange(i, s.len() as int), p)
}

/// Whether `p` occurs in `s`.
pub fn contains_str(s: &str, p: &str) -> (r: bool)
    ensures
        r == occurs_in(s@, p@),
{
    let v = chars_of(s);
    let pv = chars_of(p);
    let n = v.len();
    let mut i: usize = 0;
    while i <= n
        invariant
            v@ == s@,
            pv@ == p@,
            n == v@.len(),
            i <= n + 1,
            forall|j: int| 0 <= j < i ==> !has_prefix(s@.subrange(j, s@.len() as int), p@),
        decreases n + 1 - i,
    {
        if range_has_prefix(&v, i, n, &pv) {
            return true;
        }
        if i == n {
            assert forall|j: int| 0 <= j <= n implies !#[trigger] has_prefix(s@.subrange(j, s@.len() as int), p@) by {}
            return false;
        }
        i += 1;
    }
    false
}

/// Whether what `git pull` printed says that nothing changed.
pub fn pull_up_to_date(stdout: &str) -> (r: bool)
    ensures
        r == (occurs_in(stdout@, "Already up to date"@) || occurs_in(stdout@, "Already up-to-date"@)),
{
    contains_str(stdout, "Already up to date") || contains_str(stdout, "Already up-to-date")
}

/// Whether a repository holding several modules is unchanged: the commit
/// recorded before is known and is the one cloned now.
pub fn group_up_to_date(old_pin: &Option<String>, new_pin: &Option<String>) -> (r: bool)
    ensures
        r == (old_pin is Some && opt_view(*new_pin) == opt_view(*old_pin)),
{
    match (old_pin, new_pin) {
        (Some(a), Some(b)) => str_equal(a.as_str(), b.as_str()),
        _ => false,
    }
}

/// The indices of `idx` whose module has the given repository address.
pub open spec fn with_url(s: Seq<DiscoveredModule>, idx: Seq<usize>, url: Seq<char>, hi: int) -> Seq<usize>
    decreases hi,
{
    if hi <= 0 {
        Seq::empty()
    } else {
        let prev = with_url(s, idx, url, hi - 1);
        let m = s[idx[hi - 1] as int];
        if m.manifest.source matches Some(src) && src.url@ == url { prev.push(idx[hi - 1]) } else { prev }
    }
}

/// The repository address of a managed module.
pub open spec fn url_of(m: DiscoveredModule) -> Seq<char> {
    m.manifest.source->0.url@
}

/// One of the groups has the address `u`.
pub open spec fn listed(groups: Seq<(String, Vec<usize>)>, u: Seq<char>) -> bool {
    exists|g: int| 0 <= g < groups.len() && (#[trigger] groups[g]).0@ == u
}

/// The modules of `idx` grouped by repository address, the groups in the
/// order their addresses first appear.
pub fn group_by_url(modules: &Vec<DiscoveredModule>, idx: &Vec<usize>) -> (r: Vec<(String, Vec<usize>)>)
    requires
        forall|k: int| 0 <= k < idx@.len() ==> (#[trigger] idx@[k]) < modules@.len()
            && modules@[idx@[k] as int].manifest.source is Some,
    ensures
        forall|g: int| 0 <= g < r@.len() ==> (#[trigger] r@[g]).1@ == with_url(modules@, idx@, r@[g].0@, idx@.len() as int),
        forall|a: int, b: int| 0 <= a < b < r@.len() ==> r@[a].0@ != r@[b].0@,
        forall|k: int| 0 <= k < idx@.len() ==> #[trigger] listed(r@, url_of(modules@[idx@[k] as int])),
{
    let mut groups: Vec<(String, Vec<usize>)> = Vec::new();
    let mut k: usize = 0;
    while k < idx.len()
        invariant
            forall|q: int| 0 <= q < idx@.len() ==> (#[trigger] idx@[q]) < modules@.len()
                && modules@[idx@[q] as int].manifest.source is Some,
            k <= idx@.len(),
            forall|g: int| 0 <= g < groups@.len() ==> (#[trigger] groups@[g]).1@ == with_url(modules@, idx@, groups@[g].0@, k as int),
            forall|a: int, b: int| 0 <= a < b < groups@.len() ==> groups@[a].0@ != groups@[b].0@,
            forall|q: int| 0 <= q < k ==> #[trigger] listed(groups@, url_of(modules@[idx@[q] as int])),
        decreases idx.len() - k,
    {
        let i = idx[k];
        let url = match &modules[i].manifest.source {
            Some(src) => &src.url,
            None => { return groups; },
        };
        let ghost before = groups@;
        let mut g: usize = 0;
        let mut found = false;
        while g < groups.len() && !found
            invariant
                g <= groups@.len(),
                groups@ == before,
                !found ==> forall|h: int| 0 <= h < g ==> (#[trigger] groups@[h]).0@ != url@,
                found ==> g < groups@.len() && groups@[g as int].0@ == url@,
            decreases groups.len() - g + if found { 0int } else { 1int },
        {
            if str_equal(groups[g].0.as_str(), url.as_str()) {
                found = true;
            } else {
                g += 1;
            }
        }
        if found {
            let mut entry = groups.remove(g);
            entry.1.push(i);
            groups.insert(g, entry);
        } else {
            let mut key = String::new();
            push_str(&mut key, url.as_str());
            let mut members: Vec<usize> = Vec::new();
            members.push(i);
            groups.push((key, members));
        }
        proof {
            assert forall|h: int| 0 <= h < groups@.len() implies (#[trigger] groups@[h]).1@ == with_url(modules@, idx@, groups@[h].0@, k + 1) by {
                if found && h == g {
                } else if !found && h == before.len() {
                    assert(with_url(modules@, idx@, url@, k as int) == Seq::<usize>::empty()) by {
                        lemma_with_url_absent(modules@, idx@, url@, k as int, before);
                    }
                } else {
                    assert(groups@[h] == before[h]);
                }
            }
            assert forall|q: int| 0 <= q < k + 1 implies #[trigger] listed(groups@, url_of(modules@[idx@[q] as int])) by {
                if q == k {
                    if found { assert(groups@[g as int].0@ == url@); } else { assert(groups@[before.len() as int].0@ == url@); }
                } else {
                    assert(listed(before, url_of(modules@[idx@[q] as int])));
                    let h = choose|h: int| 0 <= h < before.len() && (#[trigger] before[h]).0@ == url_of(modules@[idx@[q] as int]);
                    assert(groups@[h].0@ == before[h].0@);
                }
            }
        }
        k += 1;
    }
    groups
}

proof fn lemma_with_url_absent(s: Seq<DiscoveredModule>, idx: Seq<usize>, url: Seq<char>, hi: int, groups: Seq<(String, Vec<usize>)>)
    requires
        0 <= hi <= idx.len(),
        forall|q: int| 0 <= q < idx.len() ==> (#[trigger] idx[q]) < s.len() && s[idx[q] as int].manifest.source is Some,
        forall|h: int| 0 <= h < groups.len() ==> (#[trigger] groups[h]).0@ != url,
        forall|q: int| 0 <= q < hi ==> #[trigger] listed(groups, url_of(s[idx[q] as int])),
    ensures
        with_url(s, idx, url, hi) == Seq::<usize>::empty(),
    decreases hi,
{
    if hi > 0 {
        lemma_with_url_absent(s, idx, url, hi - 1, groups);
        assert(listed(groups, url_of(s[idx[hi - 1] as int])));
    }
}

/// The outcome of updating one module.
pub enum UpdateStatus {
    UpToDate,
    Updated,
    Failed(String),
}

/// How many modules of a repository were updated, already current, or
/// failed.
pub struct GroupUpdateStatus {
    pub updated: usize,
    pub already_current: usize,
    pub failed: usize,
}

/// What became of one module of a repository in an update.
#[derive(Clone, Copy, Debug, PartialEq, Eq, Structural)]
pub enum ModuleUpdate {
    /// The repository could not be cloned.
    CloneFailed,
    /// The commit cloned is the one already installed.
    UpToDate,
    /// The module's files were brought over.
    Updated,
    /// No directory of the clone holds the module.
    NotFound,
    /// The module was found but its files could not be brought over.
    SyncFailed,
}

/// The outcome for a module of a repository: the clone failed; or the
/// repository is unchanged; or the module was `found` in the clone and
/// `synced`, or not.
pub open spec fn module_update(old_pin: Option<Seq<char>>, clone_ok: bool, new_pin: Option<Seq<char>>, found: bool, synced: bool) -> ModuleUpdate {
    if !clone_ok {
        ModuleUpdate::CloneFailed
    } else if old_pin is Some && new_pin == old_pin {
        ModuleUpdate::UpToDate
    } else if !found {
        ModuleUpdate::NotFound
    } else if synced {
        ModuleUpdate::Updated
    } else {
        ModuleUpdate::SyncFailed
    }
}

/// How many of the outcomes are `Updated`, `UpToDate`, or a failure.
pub open spec fn count_updates(u: Seq<ModuleUpdate>) -> (nat, nat, nat)
    decreases u.len(),
{
    if u.len() == 0 {
        (0, 0, 0)
    } else {
        let (a, b, c) = count_updates(u.drop_last());
        match u.last() {
            ModuleUpdate::Updated => (a + 1, b, c),
            ModuleUpdate::UpToDate => (a, b + 1, c),
            _ => (a, b, c + 1),
        }
    }
}

proof fn lemma_count_updates_total(u: Seq<ModuleUpdate>)
    ensures
        count_updates(u).0 + count_updates(u).1 + count_updates(u).2 == u.len(),
    decreases u.len(),
{
    if u.len() > 0 {
        lemma_count_updates_total(u.drop_last());
    }
}

/// The outcome for each module of a repository, and the counts: `found`
/// and `synced` tell, for each module, whether the clone holds it and whether
/// its files were brought over.
pub fn group_outcome(
    old_pin: &Option<String>,
    clone_ok: bool,
    new_pin: &Option<String>,
    found: &Vec<bool>,
    synced: &Vec<bool>,
) -> (r: (Vec<ModuleUpdate>, GroupUpdateStatus))
    requires
        found@.len() == synced@.len(),
    ensures
        r.0@.len() == found@.len(),
        forall|i: int| 0 <= i < found@.len() ==> #[trigger] r.0@[i] == module_update(opt_view(*old_pin), clone_ok,
            opt_view(*new_pin), found@[i], synced@[i]),
        r.1.updated == count_updates(r.0@).0,
        r.1.already_current == count_updates(r.0@).1,
        r.1.failed == count_updates(r.0@).2,
        r.1.updated + r.1.already_current + r.1.failed == found@.len(),
{
    let unchanged = group_up_to_date(old_pin, new_pin);
    let mut outcomes: Vec<ModuleUpdate> = Vec::new();
    let mut updated: usize = 0;
    let mut current: usize = 0;
    let mut failed: usize = 0;
    let mut i: usize = 0;
    while i < found.len()
        invariant
            found@.len() == synced@.len(),
            i <= found@.len(),
            unchanged == (old_pin is Some && opt_view(*new_pin) == opt_view(*old_pin)),
            outcomes@.len() == i,
            forall|j: int| 0 <= j < i ==> #[trigger] outcomes@[j] == module_update(opt_view(*old_pin), clone_ok,
                opt_view(*new_pin), found@[j], synced@[j]),
            updated == count_updates(outcomes@).0,
            current == count_updates(outcomes@).1,
            failed == count_updates(outcomes@).2,
            updated + current + failed == i,
        decreases found@.len() - i,
    {
        let u = if !clone_ok {
            ModuleUpdate::CloneFailed
        } else if unchanged {
            ModuleUpdate::UpToDate
        } else if !found[i] {
            ModuleUpdate::NotFound
        } else if synced[i] {
            ModuleUpdate::Updated
        } else {
            ModuleUpdate::SyncFailed
        };
        let ghost before = outcomes@;
        outcomes.push(u);
        assert(outcomes@.drop_last() == before);
        match u {
            ModuleUpdate::Updated => { updated += 1; },
            ModuleUpdate::UpToDate => { current += 1; },
            _ => { failed += 1; },
        }
        i += 1;
    }
    proof { lemma_count_updates_total(outcomes@); }
    (outcomes, GroupUpdateStatus { updated, already_current: current, failed })
}

/// The message when nothing can be updated: an error naming the module
/// asked for, or, when none was named, a note.
pub fn nothing_managed(module_name: &Option<String>) -> (r: Result<String, String>)
    ensures
        match *module_name {
            Some(n) => r matches Err(e) && e@ == "Module '"@ + n@
                + "' not found or has no [source] section.\n  Only modules installed via 'gai install' can be updated this way."@,
            None => r matches Ok(m) && m@
                == "No managed packages found.\n  Install packages with 'gai install <user/repo>' to track them here."@,
        },
{
    match module_name {
        Some(n) => {
            let mut e = String::new();
            push_str(&mut e, "Module '");
            push_str(&mut e, n.as_str());
            push_str(&mut e, "' not found or has no [source] section.\n  Only modules installed via 'gai install' can be updated this way.");
            Err(e)
        },
        None => {
            let mut m = String::new();
            push_str(&mut m, "No managed packages found.\n  Install packages with 'gai install <user/repo>' to track them here.");
            Ok(m)
        },
    }
}

} // verus!
