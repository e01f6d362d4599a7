//! `gai resolve`: the missing dependencies that name a repository to
//! install them from.
use vstd::prelude::*;
use crate::types::{DiscoveredModule, ModuleStatus};
use crate::graph::dep_count;
use crate::text::{push_str, str_equal};

verus! {

/// The first dependency entry of `m` called `name`, or -1.
pub open spec fn first_dep_called(m: DiscoveredModule, name: Seq<char>, hi: int) -> int
    decreases hi,
{
    if hi <= 0 {
        -1
    } else if first_dep_called(m, name, hi - 1) >= 0 {
        first_dep_called(m, name, hi - 1)
    } else if m.manifest.module.deps@[hi - 1].name@ == name {
        hi - 1
    } else {
        -1
    }
}

/// What a module skipped for a dependency names: the text of its status.
pub open spec fn skipped_for(status: ModuleStatus) -> Option<Seq<char>> {
    match status {
        ModuleStatus::SkippedMissingDep(d) => Some(d@),
        ModuleStatus::SkippedBadConstraint(d) => Some(d@),
        _ => None,
    }
}

/// What can be installed for module `m`: when its status names a dependency
/// entry of it that has a repository, that (name, repository) pair.
pub open spec fn resolvable(m: DiscoveredModule) -> Option<(Seq<char>, Seq<char>)> {
    match skipped_for(m.status) {
        Some(d) => {
            let k = first_dep_called(m, d, dep_count(m));
            if k >= 0 && m.manifest.module.deps@[k].source is Some {
                Some((d, m.manifest.module.deps@[k].source->0@))
            } else {
                None
            }
        },
        None => None,
    }
}

/// The pairs for the first `hi` modules.
pub open spec fn resolvable_upto(s: Seq<DiscoveredModule>, hi: int) -> Seq<(Seq<char>, Seq<char>)>
    decreases hi,
{
    if hi <= 0 {
        Seq::empty()
    } else {
        let prev = resolvable_upto(s, hi - 1);
        match resolvable(s[hi - 1]) {
            Some(p) => prev.push(p),
            None => prev,
        }
    }
}

/// The (dependency, repository) pairs to install, in module order.
pub fn resolvable_deps(modules: &Vec<DiscoveredModule>) -> (r: Vec<(String, String)>)
    ensures
        r@.map_values(|p: (String, String)| (p.0@, p.1@)) == resolvable_upto(modules@, modules@.len() as int),
{
    let mut r: Vec<(String, String)> = Vec::new();
    let mut i: usize = 0;
    while i < modules.len()
        invariant
            i <= modules@.len(),
            r@.map_values(|p: (String, String)| (p.0@, p.1@)) == resolvable_upto(modules@, i as int),
        decreases modules.len() - i,
    {
        let m = &modules[i];
        let wanted = match &m.status {
            ModuleStatus::SkippedMissingDep(d) => Some(d),
            ModuleStatus::SkippedBadConstraint(d) => Some(d),
            _ => None,
        };
        if let Some(d) = wanted {
            let deps = &m.manifest.module.deps;
            let mut k: usize = 0;
            let mut found: Option<usize> = None;
            while k < deps.len() && found.is_none()
                invariant
                    i < modules@.len(),
                    *m == modules@[i as int],
                    deps@ == m.manifest.module.deps@,
                    k <= deps@.len(),
                    found is None ==> first_dep_called(*m, d@, k as int) == -1,
                    found matches Some(x) ==> x < deps@.len() && first_dep_called(*m, d@, deps@.len() as int) == x,
                decreases deps.len() - k + if found is None { 1int } else { 0int },
            {
                if str_equal(deps[k].name.as_str(), d.as_str()) {
                    proof {
                        assert(first_dep_called(*m, d@, k + 1) == k);
                        lemma_first_dep_stays(*m, d@, k + 1, deps@.len() as int);
                    }
                    found = Some(k);
                } else {
                    k += 1;
                }
            }
            if let Some(x) = found {
                if let Some(src) = &deps[x].source {
                    let mut a = String::new();
                    push_str(&mut a, d.as_str());
                    let mut b = String::new();
                    push_str(&mut b, src.as_str());
                    let ghost before = r@;
                    r.push((a, b));
                    assert(r@.map_values(|p: (String, String)| (p.0@, p.1@))
                        == before.map_values(|p: (String, String)| (p.0@, p.1@)).push((d@, src@)));
                }
            }
        }
        i += 1;
    }
    r
}

proof fn lemma_first_dep_stays(m: DiscoveredModule, name: Seq<char>, lo: int, hi: int)
    requires
        0 <= lo <= hi,
        first_dep_called(m, name, lo) >= 0,
    ensures
        first_dep_called(m, name, hi) == first_dep_called(m, name, lo),
    decreases hi - lo,
{
    if hi > lo {
        lemma_first_dep_stays(m, name, lo, hi - 1);
    }
}

} // verus!
