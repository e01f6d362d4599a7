//! Renaming a module: which module, its new directory name, and the modules
//! whose manifests name it as a dependency.
use vstd::prelude::*;
use crate::types::DiscoveredModule;
use crate::graph::{dep_name, dep_count};
use crate::source::name_prefix;
use crate::text::{chars_of, push_char, push_str, str_equal, string_from_range, find_from,
    lemma_first_index_is, lemma_first_index_none, first_index_of};

verus! {

/// The index of the first module called `name` from `lo` on, or -1.
pub open spec fn first_called_from(s: Seq<DiscoveredModule>, name: Seq<char>, lo: int) -> int
    decreases s.len() - lo,
{
    if lo < 0 || lo >= s.len() {
        -1
    } else if s[lo].name() == name {
        lo
    } else {
        first_called_from(s, name, lo + 1)
    }
}

/// The index of the first module called `name`, or -1.
pub open spec fn first_called(s: Seq<DiscoveredModule>, name: Seq<char>) -> int {
    first_called_from(s, name, 0)
}

/// What `rename_target` answers: the module to rename, or why there is none.
pub open spec fn rename_check(s: Seq<DiscoveredModule>, old_name: Seq<char>, new_name: Seq<char>) -> Result<int, Seq<char>> {
    if first_called(s, old_name) < 0 {
        Err("Module '"@ + old_name + "' not found."@)
    } else if first_called(s, new_name) >= 0 {
        Err("Module '"@ + new_name + "' already exists."@)
    } else {
        Ok(first_called(s, old_name))
    }
}

/// Finds the first module called `name`.
pub fn find_module(modules: &Vec<DiscoveredModule>, name: &str) -> (r: Option<usize>)
    ensures
        match r {
            Some(i) => i < modules@.len() && first_called(modules@, name@) == i,
            None => first_called(modules@, name@) == -1,
        },
{
    let mut i: usize = 0;
    while i < modules.len()
        invariant
            i <= modules@.len(),
            first_called(modules@, name@) == first_called_from(modules@, name@, i as int),
        decreases modules.len() - i,
    {
        if str_equal(modules[i].manifest.module.name.as_str(), name) {
            return Some(i);
        }
        i += 1;
    }
    None
}

/// The module to rename from `old_name` to `new_name`: the first called
/// `old_name`, provided none is called `new_name` yet.
pub fn rename_target(modules: &Vec<DiscoveredModule>, old_name: &str, new_name: &str) -> (r: Result<usize, String>)
    ensures
        match r {
            Ok(i) => rename_check(modules@, old_name@, new_name@) == Ok::<int, Seq<char>>(i as int),
            Err(e) => rename_check(modules@, old_name@, new_name@) == Err::<int, Seq<char>>(e@),
        },
{
    let target = match find_module(modules, old_name) {
        Some(i) => i,
        None => {
            let mut msg = String::new();
            push_str(&mut msg, "Module '");
            push_str(&mut msg, old_name);
            push_str(&mut msg, "' not found.");
            return Err(msg);
        },
    };
    if find_module(modules, new_name).is_some() {
        let mut msg = String::new();
        push_str(&mut msg, "Module '");
        push_str(&mut msg, new_name);
        push_str(&mut msg, "' already exists.");
        return Err(msg);
    }
    Ok(target)
}

/// The directory name of a renamed module: the part of the old name before
/// its first `_`, `_` and the new name; or the new name alone when the old
/// name has no `_`.
pub open spec fn renamed_directory(old_dir: Seq<char>, new_name: Seq<char>) -> Seq<char> {
    if first_index_of(old_dir, '_') < 0 {
        new_name
    } else {
        name_prefix(old_dir) + seq!['_'] + new_name
    }
}

/// The new directory name for a module whose directory is `old_dir`.
pub fn renamed_dir(old_dir: &str, new_name: &str) -> (r: String)
    ensures
        r@ == renamed_directory(old_dir@, new_name@),
{
    let v = chars_of(old_dir);
    let n = v.len();
    let k = find_from(&v, 0, n, '_');
    if k < n {
        proof { lemma_first_index_is(v@, '_', k as int); }
        let mut s = string_from_range(&v, 0, k);
        push_char(&mut s, '_');
        push_str(&mut s, new_name);
        s
    } else {
        proof { lemma_first_index_none(v@, '_'); }
        let mut s = String::new();
        push_str(&mut s, new_name);
        s
    }
}

/// Module `m` lists a dependency called `name`.
pub open spec fn depends_on_name(m: DiscoveredModule, name: Seq<char>) -> bool {
    exists|k: int| 0 <= k < dep_count(m) && #[trigger] dep_name(m, k) == name
}

/// The modules, other than those called `old_name`, that list `old_name`
/// among their dependencies: their manifests need the new name.
pub fn dependents_to_rewrite(modules: &Vec<DiscoveredModule>, old_name: &str) -> (r: Vec<usize>)
    ensures
        forall|k: int| 0 <= k < r@.len() ==> (#[trigger] r@[k]) < modules@.len(),
        forall|a: int, b: int| 0 <= a < b < r@.len() ==> r@[a] < r@[b],
        forall|i: int| 0 <= i < modules@.len() ==> (r@.contains(i as usize) <==>
            (modules@[i].name() != old_name@ && depends_on_name(modules@[i], old_name@))),
{
    let mut r: Vec<usize> = Vec::new();
    let mut i: usize = 0;
    while i < modules.len()
        invariant
            i <= modules@.len(),
            forall|k: int| 0 <= k < r@.len() ==> (#[trigger] r@[k]) < i,
            forall|a: int, b: int| 0 <= a < b < r@.len() ==> r@[a] < r@[b],
            forall|j: int| 0 <= j < modules@.len() ==> (r@.contains(j as usize) <==>
                (j < i && modules@[j].name() != old_name@ && depends_on_name(modules@[j], old_name@))),
        decreases modules.len() - i,
    {
        let m = &modules[i];
        let mut uses = false;
        if !str_equal(m.manifest.module.name.as_str(), old_name) {
            let deps = &m.manifest.module.deps;
            let mut k: usize = 0;
            while k < deps.len()
                invariant
                    i < modules@.len(),
                    *m == modules@[i as int],
                    deps@ == m.manifest.module.deps@,
                    k <= deps@.len(),
                    uses == exists|q: int| 0 <= q < k && #[trigger] dep_name(modules@[i as int], q) == old_name@,
                decreases deps.len() - k,
            {
                if str_equal(deps[k].name.as_str(), old_name) {
                    uses = true;
                    assert(dep_name(modules@[i as int], k as int) == old_name@);
                }
                k += 1;
            }
        }
        let ghost before = r@;
        if uses {
            r.push(i);
        }
        proof {
            assert forall|j: int| 0 <= j < modules@.len() implies (r@.contains(j as usize) <==>
                (j < i + 1 && modules@[j].name() != old_name@ && depends_on_name(modules@[j], old_name@))) by {
                if r@.contains(j as usize) && !before.contains(j as usize) {
                    assert(r@.last() == j as usize);
                }
                if j < i && before.contains(j as usize) {
                    let t = choose|t: int| 0 <= t < before.len() && before[t] == j as usize;
                    assert(r@[t] == j as usize);
                }
                if j == i && uses {
                    assert(r@.last() == j as usize);
                }
                if j == i && r@.contains(j as usize) {
                    if !uses {
                        let t = choose|t: int| 0 <= t < r@.len() && r@[t] == j as usize;
                        assert(before[t] < i);
                    }
                }
            }
        }
        i += 1;
    }
    r
}

} // verus!
