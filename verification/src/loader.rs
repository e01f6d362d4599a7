//! The loader: the list of module directories, and the whole pipeline that
//! turns the modules found there into the modules to load, in order.
use vstd::prelude::*;
use crate::types::DiscoveredModule;
use crate::text::{chars_of, find_from, first_index_of, lemma_first_index_of, lemma_first_index_is,
    lemma_first_index_none, push_str, string_from_range};
use crate::graph::{Sorter, sort_outcome};
use crate::source::{dedup_modules, last_of_each};
use crate::laws::{names_distinct, lemma_dedup_names_distinct, lemma_load_keeps_names_distinct};
use crate::validator::{CommandValidator, DependencyValidator, cmds_applied, any_cmds_applied, validation_outcome};

verus! {

/// The non-empty entries of a colon-separated list of directories.
pub open spec fn dir_list(s: Seq<char>) -> Seq<Seq<char>>
    decreases s.len(),
{
    if s.len() == 0 {
        Seq::empty()
    } else {
        let k = first_index_of(s, ':');
        if k < 0 {
            seq![s]
        } else {
            proof { lemma_first_index_of(s, ':'); }
            (if k > 0 { seq![s.subrange(0, k)] } else { Seq::empty() }) + dir_list(s.subrange(k + 1, s.len() as int))
        }
    }
}

/// The paths that tilde expansion rewrites: `~` alone or followed by `/`.
pub open spec fn tilde_applies(p: Seq<char>) -> bool {
    p.len() > 0 && p[0] == '~' && (p.len() == 1 || p[1] == '/')
}

/// `e` is what tilde expansion may make of `p`: `p` itself, or, where it
/// applies, `p` with its `~` replaced by a directory.
pub open spec fn tilde_expanded(p: Seq<char>, e: Seq<char>) -> bool {
    if tilde_applies(p) {
        e == p || (e.len() >= p.len() - 1 && e.subrange(e.len() - (p.len() - 1), e.len() as int) == p.subrange(1, p.len() as int))
    } else {
        e == p
    }
}

/// `shellexpand::tilde`: a path that is `~` or starts with `~/` gets the
/// home directory in place of the `~` when the home directory is known; any
/// other path comes back unchanged. Which directory is not stated: it comes
/// from the environment.
#[verifier::external_body]
pub(crate) fn expand_tilde(path: &str) -> (r: String)
    ensures
        tilde_expanded(path@, r@),
{
    shellexpand::tilde(path).into_owned()
}

/// `Path::exists`: whether something is found at the path. Nothing is
/// stated of the answer: it depends on the file system.
#[verifier::external_body]
fn path_exists(path: &str) -> bool {
    std::path::Path::new(path).exists()
}

/// The message for a module directory that is not there.
pub open spec fn missing_dir_message(p: Seq<char>) -> Seq<char> {
    "module directory does not exist: "@ + p
}

/// `r` is the refusal of an empty list of directories.
pub open spec fn refused_as_empty(r: Result<Loader, String>) -> bool {
    r matches Err(e) && e@ == "no module directories specified"@
}

/// `r` is what a loader over the expanded directories gives, `exists`
/// telling for each whether it is there: the refusal of an empty list, the
/// loader over the list where every directory is there, else the refusal of
/// the first one that is not.
pub open spec fn loader_from_outcome(expanded: Seq<String>, exists: Seq<bool>, r: Result<Loader, String>) -> bool {
    if expanded.len() == 0 {
        refused_as_empty(r)
    } else if forall|i: int| 0 <= i < exists.len() ==> exists[i] {
        r matches Ok(l) && l.dirs@ == expanded
    } else {
        exists|i: int|
            #![trigger exists[i]]
            0 <= i < exists.len() && !exists[i] && (forall|j: int| 0 <= j < i ==> exists[j])
            && (r matches Err(e) && e@ == missing_dir_message(expanded[i]@))
    }
}

/// `r` is what `Loader::new` gives for the list `dirs`: the entries of the
/// list are expanded, and for some answers of the file system to whether each
/// is there, the loader is made as `loader_from_outcome` says.
pub open spec fn loader_made(dirs: Seq<char>, r: Result<Loader, String>) -> bool {
    let list = dir_list(dirs);
    exists|expanded: Seq<String>, exists: Seq<bool>|
        #![trigger loader_from_outcome(expanded, exists, r)]
        expanded.len() == list.len() && exists.len() == list.len()
        && (forall|i: int| 0 <= i < list.len() ==> tilde_expanded(#[trigger] list[i], expanded[i]@))
        && loader_from_outcome(expanded, exists, r)
}

/// After the modules are ordered, the command checks give `r`.
pub open spec fn checks_outcome(sorted: Seq<DiscoveredModule>, available: Seq<String>, r: Seq<DiscoveredModule>) -> bool {
    exists|checked: Seq<DiscoveredModule>, any: Seq<DiscoveredModule>|
        #![trigger cmds_applied(sorted, checked, available), any_cmds_applied(checked, any, available)]
        cmds_applied(sorted, checked, available) && any_cmds_applied(checked, any, available) && validation_outcome(any, r)
}

/// `r` is what the loader makes of the modules found: ordered, then
/// checked for the commands they need (`available` being those found on the
/// machine), then for their dependencies.
pub open spec fn load_outcome(found: Seq<DiscoveredModule>, available: Seq<String>, r: Seq<DiscoveredModule>) -> bool {
    exists|sorted: Seq<DiscoveredModule>| #[trigger] sort_outcome(found, sorted) && checks_outcome(sorted, available, r)
}

/// The module directories, in load order.
pub struct Loader {
    pub dirs: Vec<String>,
}

impl Loader {
    /// A loader over the expanded directories `expanded`, `exists` telling
    /// for each whether it is there.
    pub fn loader_from(expanded: Vec<String>, exists: &Vec<bool>) -> (r: Result<Loader, String>)
        requires
            exists@.len() == expanded@.len(),
        ensures
            loader_from_outcome(expanded@, exists@, r),
    {
        if expanded.len() == 0 {
            let mut msg = String::new();
            push_str(&mut msg, "no module directories specified");
            return Err(msg);
        }
        let mut i: usize = 0;
        while i < exists.len()
            invariant
                exists@.len() == expanded@.len(),
                i <= exists@.len(),
                forall|j: int| 0 <= j < i ==> exists@[j],
            decreases exists@.len() - i,
        {
            if !exists[i] {
                let mut msg = String::new();
                push_str(&mut msg, "module directory does not exist: ");
                push_str(&mut msg, expanded[i].as_str());
                proof {
                    assert(!exists@[i as int]);
                }
                return Err(msg);
            }
            i += 1;
        }
        Ok(Loader { dirs: expanded })
    }

    /// A loader over the colon-separated list of directories `dirs`: empty
    /// entries are skipped, a leading `~` is expanded, and every directory
    /// must exist.
    pub fn new(dirs: &str) -> (r: Result<Loader, String>)
        ensures
            loader_made(dirs@, r),
            dir_list(dirs@).len() == 0 ==> refused_as_empty(r),
    {
        let v = chars_of(dirs);
        let n = v.len();
        let mut found: Vec<String> = Vec::new();
        let ghost mut done: Seq<Seq<char>> = Seq::empty();
        let mut pos: usize = 0;
        assert(v@.subrange(0, n as int) == v@);
        while pos < n
            invariant
                v@ == dirs@,
                n == v@.len(),
                pos <= n,
                dir_list(dirs@) == done + dir_list(v@.subrange(pos as int, n as int)),
                found@.len() == done.len(),
                forall|i: int| 0 <= i < done.len() ==> tilde_expanded(#[trigger] done[i], found@[i]@),
            decreases n - pos,
        {
            let ghost rest = v@.subrange(pos as int, n as int);
            let k = find_from(&v, pos, n, ':');
            let ghost piece = v@.subrange(pos as int, k as int);
            proof {
                if k < n {
                    lemma_first_index_is(rest, ':', k - pos);
                    assert(rest.subrange(0, k - pos) == piece);
                    assert(rest.subrange(k - pos + 1, rest.len() as int) == v@.subrange(k + 1, n as int));
                } else {
                    lemma_first_index_none(rest, ':');
                    assert(piece == rest);
                }
            }
            if k > pos {
                let entry = string_from_range(&v, pos, k);
                let expanded = expand_tilde(entry.as_str());
                found.push(expanded);
                proof {
                    let old_done = done;
                    done = done.push(piece);
                    if k < n {
                        assert(dir_list(rest) == seq![piece] + dir_list(v@.subrange(k + 1, n as int)));
                        assert(dir_list(dirs@) == done + dir_list(v@.subrange(k + 1, n as int)));
                    } else {
                        assert(dir_list(rest) == seq![piece]);
                        assert(v@.subrange(n as int, n as int).len() == 0);
                        assert(dir_list(dirs@) == done + dir_list(v@.subrange(n as int, n as int)));
                    }
                    assert forall|i: int| 0 <= i < done.len() implies tilde_expanded(#[trigger] done[i], found@[i]@) by {
                        if i < old_done.len() {
                            assert(done[i] == old_done[i]);
                        }
                    }
                }
            } else {
                proof {
                    if k < n {
                        assert(dir_list(rest) == Seq::<Seq<char>>::empty() + dir_list(v@.subrange(k + 1, n as int)));
                        assert(done + dir_list(rest) == done + dir_list(v@.subrange(k + 1, n as int)));
                    }
                }
            }
            if k < n {
                pos = k + 1;
            } else {
                pos = n;
            }
        }
        proof {
            assert(dir_list(v@.subrange(pos as int, n as int)).len() == 0);
            assert(dir_list(dirs@) == done);
        }
        let mut exists: Vec<bool> = Vec::new();
        let mut j: usize = 0;
        while j < found.len()
            invariant
                j <= found@.len(),
                exists@.len() == j,
            decreases found@.len() - j,
        {
            exists.push(path_exists(found[j].as_str()));
            j += 1;
        }
        let ghost expanded = found@;
        let ghost answers = exists@;
        let r = Loader::loader_from(found, &exists);
        assert(loader_from_outcome(expanded, answers, r));
        r
    }

    /// The modules to load, in order: of the modules `read` from the
    /// directories (in the order of the directories), the last of each name,
    /// ordered by `Sorter::sort_modules`, then checked for the commands they
    /// need (`available` being those found on the machine), then for their
    /// dependencies. No two of them share a name.
    pub fn get_modules(&self, read: Vec<DiscoveredModule>, available: &Vec<String>) -> (r: Vec<DiscoveredModule>)
        ensures
            load_outcome(last_of_each(read@), available@, r@),
            names_distinct(r@),
    {
        let mut modules = read;
        dedup_modules(&mut modules);
        let ghost found = modules@;
        proof { lemma_dedup_names_distinct(read@); }
        Sorter::sort_modules(&mut modules);
        let ghost sorted = modules@;
        CommandValidator::cmds(&mut modules, available);
        let ghost checked = modules@;
        CommandValidator::any_cmds(&mut modules, available);
        let ghost any = modules@;
        DependencyValidator::validate(&mut modules);
        assert(checks_outcome(sorted, available@, modules@));
        proof { lemma_load_keeps_names_distinct(found, available@, modules@); }
        modules
    }

    /// The directory new modules go to: the last one.
    pub fn default_write(&self) -> (r: &String)
        requires
            self.dirs@.len() > 0,
        ensures
            *r == self.dirs@.last(),
    {
        &self.dirs[self.dirs.len() - 1]
    }

    /// The directory new modules go to: the last one.
    pub fn default_write_dir(&self) -> (r: &String)
        requires
            self.dirs@.len() > 0,
        ensures
            *r == self.dirs@.last(),
    {
        self.default_write()
    }
}

} // verus!
