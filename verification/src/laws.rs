//! Properties of the loader that hold across its steps: what a loaded module
//! is guaranteed, the order modules load in, and how directory names carry
//! the load order.
use vstd::prelude::*;
use crate::types::{DiscoveredModule, ModuleStatus};
use crate::graph::{dep_name, dep_count, lookup_name, edge, graph_skips, same_but_status, sort_outcome,
    sort_witness, kahn_order, available, cycle_status, on_cycle, cycle_walk, graph_adjacency, left_out,
    successors, lemma_successors, lemma_lookup_name};
use crate::validator::{dropped_for, lookup_loaded, lemma_lookup_loaded, dep_failure, first_failure, first_failure_from,
    dep_edge, validation_outcome, failure_status, cmds_applied, any_cmds_applied, cmds_checked,
    any_cmds_checked, cmd_found, first_missing, first_missing_from, any_found, line_defines,
    defines_function};
use crate::version::spec_satisfies;
use crate::loader::{load_outcome, checks_outcome};
use crate::source::{last_of_name, last_of_each, last_of_each_from, spec_prefix_order, parse_u32,
    name_prefix, unsigned_part, all_digits, decimal_value, is_digit};
use crate::install::{spec_repo_to_module, module_char, module_dir_name, raw_url, split_branch, sanitized, repository_of};
use crate::common::{is_valid_name, is_ident_char, is_ident_start, max_prefix, in_write_directory};
use crate::remove::{renumbered, name_suffix, first_target_from, is_target, cascade_outcome, orphaned_by,
    released, release_of, mentions, in_degree, in_degree_upto, first_named, first_named_from};
use crate::text::{has_prefix, last_index_of, lemma_last_index_of, lemma_first_index_of, decimal, decimal2, digit_char, first_index_of, lemma_first_index_is, lines_of,
    trim_start};

verus! {

/// Dependency entry `k` of `mi` accepts the version of `mj`.
pub open spec fn version_accepted(mi: DiscoveredModule, k: int, mj: DiscoveredModule) -> bool {
    match mi.manifest.module.deps@[k].version {
        None => true,
        Some(c) => spec_satisfies(mj.manifest.module.version@, c@) == Ok::<bool, Seq<char>>(true),
    }
}

/// Every dependency entry of module `i` of `t` names a loaded module of
/// `t` whose version it accepts.
pub open spec fn dependencies_met(t: Seq<DiscoveredModule>, i: int) -> bool {
    forall|k: int| #![trigger dep_name(t[i], k)] 0 <= k < dep_count(t[i]) ==> exists|j: int| 0 <= j < t.len()
        && (#[trigger] t[j]).status is Loaded && t[j].name() == dep_name(t[i], k) && version_accepted(t[i], k, t[j])
}

proof fn lemma_no_failure(s: Seq<DiscoveredModule>, i: int, lo: int, k: int)
    requires
        first_failure_from(s, i, lo) is None,
        0 <= lo <= k < dep_count(s[i]),
    ensures
        dep_failure(s, i, k) is None,
    decreases k - lo,
{
    if lo < k {
        lemma_no_failure(s, i, lo + 1, k);
    }
}

/// After the dependency check, every module still loaded has each of its
/// dependencies present, loaded, and of a version its constraint accepts.
pub proof fn lemma_loaded_dependencies(s: Seq<DiscoveredModule>, t: Seq<DiscoveredModule>)
    requires
        validation_outcome(s, t),
    ensures
        forall|i: int| 0 <= i < t.len() && (#[trigger] t[i]).status is Loaded ==> s[i].status is Loaded && dependencies_met(t, i),
{
    assert forall|i: int| 0 <= i < t.len() && (#[trigger] t[i]).status is Loaded implies s[i].status is Loaded && dependencies_met(t, i) by {
        assert(same_but_status(s[i], t[i]));
        if !(s[i].status is Loaded) {
            assert(t[i].status == s[i].status);
        }
        if first_failure(s, i) is Some {
            let f = first_failure(s, i)->0;
            assert(failure_status(t[i].status, f));
        }
        assert forall|k: int| #![trigger dep_name(t[i], k)] 0 <= k < dep_count(t[i]) implies exists|j: int| 0 <= j < t.len()
            && (#[trigger] t[j]).status is Loaded && t[j].name() == dep_name(t[i], k) && version_accepted(t[i], k, t[j]) by {
            lemma_no_failure(s, i, 0, k);
            let name = dep_name(s[i], k);
            lemma_lookup_loaded(s, name);
            let j = lookup_loaded(s, name);
            assert(dep_edge(s, j, i));
            assert(same_but_status(s[j], t[j]));
            assert(t[j].status is Loaded);
            assert(t[j].name() == dep_name(t[i], k));
            assert(version_accepted(t[i], k, t[j]));
        }
    }
}

proof fn lemma_all_found(m: DiscoveredModule, available: Seq<String>, lo: int, k: int)
    requires
        first_missing_from(m, available, lo) < 0,
        0 <= lo <= k < m.manifest.module.requires_cmd@.len(),
    ensures
        cmd_found(available, m.manifest.module.requires_cmd@[k]@),
    decreases k - lo,
{
    if lo < k {
        lemma_all_found(m, available, lo + 1, k);
    }
}

/// A module is ready to load: every command of `requires_cmd` is available,
/// one of `requires_any_cmd` is when it lists any, and its dependencies are
/// met.
pub open spec fn ready(r: Seq<DiscoveredModule>, i: int, available: Seq<String>) -> bool {
    &&& forall|k: int| 0 <= k < r[i].manifest.module.requires_cmd@.len()
        ==> cmd_found(available, #[trigger] r[i].manifest.module.requires_cmd@[k]@)
    &&& r[i].manifest.module.requires_any_cmd@.len() > 0 ==> any_found(r[i], available)
    &&& dependencies_met(r, i)
}

/// Every module that the loader leaves loaded is ready to load.
pub proof fn lemma_loaded_modules_ready(found: Seq<DiscoveredModule>, available: Seq<String>, r: Seq<DiscoveredModule>)
    requires
        load_outcome(found, available, r),
    ensures
        forall|i: int| 0 <= i < r.len() && (#[trigger] r[i]).status is Loaded ==> ready(r, i, available),
{
    let sorted = choose|sorted: Seq<DiscoveredModule>| #[trigger] sort_outcome(found, sorted) && checks_outcome(sorted, available, r);
    let (checked, any) = choose|checked: Seq<DiscoveredModule>, any: Seq<DiscoveredModule>|
        #![trigger cmds_applied(sorted, checked, available), any_cmds_applied(checked, any, available)]
        cmds_applied(sorted, checked, available) && any_cmds_applied(checked, any, available) && validation_outcome(any, r);
    lemma_loaded_dependencies(any, r);
    assert forall|i: int| 0 <= i < r.len() && (#[trigger] r[i]).status is Loaded implies ready(r, i, available) by {
        assert(any[i].status is Loaded);
        assert(same_but_status(any[i], r[i]));
        assert(any_cmds_checked(checked[i], any[i], available));
        assert(cmds_checked(sorted[i], checked[i], available));
        assert(checked[i].status is Loaded);
        assert(sorted[i].status is Loaded);
        assert(first_missing(sorted[i], available) < 0);
        assert forall|k: int| 0 <= k < r[i].manifest.module.requires_cmd@.len()
            implies cmd_found(available, #[trigger] r[i].manifest.module.requires_cmd@[k]@) by {
            lemma_all_found(sorted[i], available, 0, k);
        }
    }
}

/// The dependency of `m` named `name`, if `m` lists one.
pub open spec fn lists_dependency(m: DiscoveredModule, name: Seq<char>) -> bool {
    exists|k: int| 0 <= k < dep_count(m) && #[trigger] dep_name(m, k) == name
}

/// No two modules share a name.
pub open spec fn names_distinct(s: Seq<DiscoveredModule>) -> bool {
    forall|a: int, b: int| 0 <= a < b < s.len() ==> (#[trigger] s[a]).name() != (#[trigger] s[b]).name()
}

proof fn lemma_lookup_unique(s: Seq<DiscoveredModule>, j: int)
    requires
        names_distinct(s),
        0 <= j < s.len(),
    ensures
        lookup_name(s, s[j].name()) == j,
{
    crate::graph::lemma_lookup_name(s, s[j].name());
    let l = lookup_name(s, s[j].name());
    if l != j {
        if l < j {
            assert(s[j].name() != s[j].name());
        } else {
            assert(s[l].name() == s[j].name());
        }
    }
}

/// `q` follows dependencies through `s`: each module of it lists the next as
/// a dependency.
pub open spec fn dependency_chain(s: Seq<DiscoveredModule>, q: Seq<int>) -> bool {
    &&& q.len() >= 1
    &&& forall|t: int| 0 <= t < q.len() ==> 0 <= #[trigger] q[t] < s.len()
    &&& forall|t: int| #![trigger q[t + 1]] 0 <= t < q.len() - 1 ==> lists_dependency(s[q[t]], s[q[t + 1]].name())
}

/// Module `a` of `s` waits, through a chain of dependencies, on a module
/// caught in a dependency cycle.
pub open spec fn waits_on_cycle(s: Seq<DiscoveredModule>, a: int) -> bool {
    exists|q: Seq<int>| #[trigger] dependency_chain(s, q) && q[0] == a && s[q.last()].status is SkippedCycle
}

/// The position of `i` in `order`.
pub open spec fn position(order: Seq<usize>, i: usize) -> int {
    choose|k: int| 0 <= k < order.len() && order[k] == i
}

/// From a module left out of the placement, dependencies left out too can
/// be followed for `k` steps.
proof fn lemma_left_out_descent(s: Seq<DiscoveredModule>, prefix: Seq<usize>, w: usize, k: nat) -> (p: Seq<usize>)
    requires
        kahn_order(s, prefix),
        s.len() <= usize::MAX,
        w < s.len(),
        !prefix.contains(w),
    ensures
        p.len() == k + 1,
        p[0] == w,
        forall|t: int| 0 <= t < p.len() ==> (#[trigger] p[t]) < s.len() && !prefix.contains(p[t]),
        forall|t: int| #![trigger p[t + 1]] 0 <= t < p.len() - 1 ==> edge(s, p[t + 1] as int, p[t] as int),
    decreases k,
{
    if k == 0 {
        seq![w]
    } else {
        let q = lemma_left_out_descent(s, prefix, w, (k - 1) as nat);
        let last = q.last();
        assert(q[q.len() - 1] == last);
        assert(!available(s, prefix, last as int));
        let j = choose|j: int| #[trigger] edge(s, j, last as int) && !prefix.contains(j as usize);
        let r = q.push(j as usize);
        assert forall|t: int| 0 <= t < r.len() implies (#[trigger] r[t]) < s.len() && !prefix.contains(r[t]) by {
            if t < q.len() {
                assert(r[t] == q[t]);
            }
        }
        assert forall|t: int| #![trigger r[t + 1]] 0 <= t < r.len() - 1 implies edge(s, r[t + 1] as int, r[t] as int) by {
            if t < q.len() - 1 {
                assert(r[t] == q[t] && r[t + 1] == q[t + 1]);
            } else {
                assert(t == q.len() - 1);
                assert(r[t] == last);
                assert(r[t + 1] == j as usize);
                assert(edge(s, j, last as int));
                assert(0 <= j < s.len());
                assert((j as usize) as int == j);
            }
        }
        r
    }
}

/// A list of more than `n` indices below `n` repeats one.
proof fn lemma_repeat(p: Seq<usize>, n: nat) -> (xy: (int, int))
    requires
        p.len() > n,
        forall|t: int| 0 <= t < p.len() ==> (#[trigger] p[t]) < n,
    ensures
        0 <= xy.0 < xy.1 < p.len(),
        p[xy.0] == p[xy.1],
{
    if p.no_duplicates() {
        let t = p.map_values(|x: usize| x as int);
        assert(t.no_duplicates()) by {
            assert forall|a: int, b: int| 0 <= a < t.len() && 0 <= b < t.len() && a != b implies t[a] != t[b] by {
                assert(p[a] != p[b]);
            }
        }
        t.unique_seq_to_set();
        vstd::set_lib::lemma_int_range(0, n as int);
        assert(t.to_set().subset_of(vstd::set_lib::set_int_range(0, n as int))) by {
            assert forall|x: int| t.to_set().contains(x) implies vstd::set_lib::set_int_range(0, n as int).contains(x) by {
                assert(t.contains(x));
                let k = choose|k: int| 0 <= k < t.len() && t[k] == x;
                assert(p[k] < n);
            }
        }
        vstd::set_lib::lemma_len_subset(t.to_set(), vstd::set_lib::set_int_range(0, n as int));
        assert(false);
        (0, 1)
    } else {
        let (x, y) = choose|x: int, y: int| 0 <= x < p.len() && 0 <= y < p.len() && x != y && p[x] == p[y];
        if x < y { (x, y) } else { (y, x) }
    }
}

/// A module left out of the placement and on no cycle waits on a module
/// caught in a cycle.
proof fn lemma_left_out_waits(
    old: Seq<DiscoveredModule>,
    marked: Seq<DiscoveredModule>,
    order: Seq<usize>,
    placed: int,
    new: Seq<DiscoveredModule>,
    a: int,
)
    requires
        sort_witness(old, marked, order, placed, new),
        placed <= a < new.len(),
        old.len() <= usize::MAX,
    ensures
        waits_on_cycle(new, a),
{
    let n = old.len();
    let prefix = order.take(placed);
    let w = order[a];
    assert forall|i: usize| i < n && !prefix.contains(i) implies placed <= #[trigger] position(order, i) < n by {
        assert(order.contains(i));
        let k = position(order, i);
        if k < placed {
            assert(prefix[k] == i);
        }
    }
    assert(!prefix.contains(w)) by {
        if prefix.contains(w) {
            let k = choose|k: int| 0 <= k < prefix.len() && prefix[k] == w;
            assert(order[k] == order[a]);
        }
    }
    let p = lemma_left_out_descent(marked, prefix, w, n);
    let (x, y) = lemma_repeat(p, n);
    let c = p[x];
    let adj = graph_adjacency(marked);
    let cyclic = left_out(n, prefix);
    let cyc = Seq::new((y - x) as nat, |t: int| p[y - t]);
    assert(cycle_walk(adj, cyclic, cyc, c as int)) by {
        assert forall|t: int| 0 <= t < cyc.len() implies (#[trigger] cyc[t]) < adj.len() by {
            assert(p[y - t] < n);
        }
        assert forall|t: int| 0 <= t < cyc.len() - 1 implies adj[cyc[t] as int].contains(#[trigger] cyc[t + 1]) && cyclic[cyc[t + 1] as int] by {
            let u = y - t - 1;
            assert(edge(marked, p[u + 1] as int, p[u] as int));
            lemma_successors(marked, p[u + 1] as int, n as int);
            assert(successors(marked, p[u + 1] as int, n as int).contains(p[u]));
            assert(cyc[t] == p[u + 1] && cyc[t + 1] == p[u]);
        }
        let l = cyc.len() - 1;
        assert(cyc.last() == p[x + 1]);
        assert(edge(marked, p[x + 1] as int, p[x] as int));
        lemma_successors(marked, p[x + 1] as int, n as int);
        assert(successors(marked, p[x + 1] as int, n as int).contains(p[x]));
    }
    assert(cyc[0] == c);
    assert(on_cycle(adj, cyclic, c as int));
    assert(order.contains(c));
    let kc = position(order, c);
    assert(order[kc] == c);
    assert(cycle_status(marked[order[kc] as int].status, new[kc].status, adj, cyclic, crate::types::module_names(marked), order[kc] as int));
    let q = Seq::new((x + 1) as nat, |t: int| position(order, p[t]));
    assert forall|t: int| 0 <= t < q.len() implies 0 <= #[trigger] q[t] < new.len() by {
        assert(placed <= position(order, p[t]) < n);
    }
    assert forall|t: int| #![trigger q[t + 1]] 0 <= t < q.len() - 1 implies lists_dependency(new[q[t]], new[q[t + 1]].name()) by {
        let i = p[t];
        let j = p[t + 1];
        assert(edge(marked, j as int, i as int));
        let k = choose|k: int| 0 <= k < dep_count(marked[i as int]) && #[trigger] lookup_name(marked, dep_name(marked[i as int], k)) == j as int;
        lemma_lookup_name(marked, dep_name(marked[i as int], k));
        assert(marked[j as int].name() == dep_name(marked[i as int], k));
        assert(order.contains(i) && order.contains(j));
        assert(order[position(order, i)] == i && order[position(order, j)] == j);
        assert(placed <= position(order, i) < n);
        assert(placed <= position(order, j) < n);
        assert(same_but_status(marked[order[q[t]] as int], new[q[t]]));
        assert(same_but_status(marked[order[q[t + 1]] as int], new[q[t + 1]]));
        assert(dep_name(new[q[t]], k) == new[q[t + 1]].name());
    }
    assert(q[0] == a) by {
        let k0 = position(order, w);
        assert(placed <= k0 < n);
        assert(order[k0] == order[a]);
    }
    assert(q.last() == kc);
    assert(dependency_chain(new, q));
}

/// Once the modules are ordered, a module that is not marked as caught in a
/// dependency cycle (and whose manifest was read) comes after every module
/// it names as a dependency, unless it waits, through its dependencies, on a
/// module caught in a cycle; when module names are distinct.
pub proof fn lemma_dependencies_first(old: Seq<DiscoveredModule>, new: Seq<DiscoveredModule>)
    requires
        sort_outcome(old, new),
        names_distinct(old),
        old.len() <= usize::MAX,
    ensures
        forall|a: int, b: int| 0 <= a < new.len() && 0 <= b < new.len() && !graph_skips(new[a])
            && #[trigger] lists_dependency(new[a], new[b].name()) ==> b < a || waits_on_cycle(new, a),
{
    let (marked, order, placed) = choose|marked: Seq<DiscoveredModule>, order: Seq<usize>, placed: int|
        sort_witness(old, marked, order, placed, new);
    assert(names_distinct(marked)) by {
        assert forall|a: int, b: int| 0 <= a < b < marked.len() implies (#[trigger] marked[a]).name() != (#[trigger] marked[b]).name() by {
            assert(crate::graph::duplicates_marked(old[a], marked[a]));
            assert(crate::graph::duplicates_marked(old[b], marked[b]));
        }
    }
    assert forall|a: int, b: int| 0 <= a < new.len() && 0 <= b < new.len() && !graph_skips(new[a])
        && #[trigger] lists_dependency(new[a], new[b].name()) implies b < a || waits_on_cycle(new, a) by {
        if a >= placed {
            lemma_left_out_waits(old, marked, order, placed, new, a);
        } else {
            let oa = order[a] as int;
            let ob = order[b] as int;
            assert(same_but_status(marked[oa], new[a]));
            assert(same_but_status(marked[ob], new[b]));
            assert(new[a].status == marked[oa].status);
            let k = choose|k: int| 0 <= k < dep_count(new[a]) && #[trigger] dep_name(new[a], k) == new[b].name();
            assert(dep_name(marked[oa], k) == marked[ob].name());
            lemma_lookup_unique(marked, ob);
            assert(edge(marked, ob, oa));
            let prefix = order.take(placed);
            assert(prefix[a] == order[a]);
            assert(available(marked, prefix.take(a), prefix[a] as int));
            assert(prefix.take(a).contains(ob as usize));
            let c = choose|c: int| 0 <= c < prefix.take(a).len() && prefix.take(a)[c] == ob as usize;
            assert(order[c] == order[b]);
        }
    }
}

/// `m` is, but for its status, one of the modules of `s`.
pub open spec fn appears_in(m: DiscoveredModule, s: Seq<DiscoveredModule>) -> bool {
    exists|k: int| 0 <= k < s.len() && same_but_status(m, #[trigger] s[k])
}

/// Ordering keeps the modules: each module before is one after, and each
/// after is one before, all but their status unchanged.
pub proof fn lemma_sort_keeps_modules(old: Seq<DiscoveredModule>, new: Seq<DiscoveredModule>)
    requires
        sort_outcome(old, new),
        old.len() <= usize::MAX,
    ensures
        new.len() == old.len(),
        forall|i: int| 0 <= i < old.len() ==> appears_in(#[trigger] old[i], new),
        forall|k: int| 0 <= k < new.len() ==> appears_in(#[trigger] new[k], old),
{
    let (marked, order, placed) = choose|marked: Seq<DiscoveredModule>, order: Seq<usize>, placed: int|
        sort_witness(old, marked, order, placed, new);
    assert forall|i: int| 0 <= i < old.len() implies appears_in(#[trigger] old[i], new) by {
        assert(order.contains(i as usize));
        let k = choose|k: int| 0 <= k < order.len() && order[k] == i as usize;
        assert(crate::graph::duplicates_marked(old[i], marked[i]));
        assert(same_but_status(marked[order[k] as int], new[k]));
        assert(same_but_status(old[i], new[k]));
    }
    assert forall|k: int| 0 <= k < new.len() implies appears_in(#[trigger] new[k], old) by {
        let i = order[k] as int;
        assert(crate::graph::duplicates_marked(old[i], marked[i]));
        assert(same_but_status(marked[i], new[k]));
        assert(same_but_status(new[k], old[i]));
    }
}

proof fn lemma_last_of_each_from(s: Seq<DiscoveredModule>, lo: int)
    requires
        0 <= lo <= s.len(),
    ensures
        forall|x: int| 0 <= x < last_of_each_from(s, lo).len() ==> exists|i: int| lo <= i < s.len()
            && last_of_name(s, i) && #[trigger] last_of_each_from(s, lo)[x] == s[i],
        names_distinct(last_of_each_from(s, lo)),
    decreases s.len() - lo,
{
    if lo < s.len() {
        lemma_last_of_each_from(s, lo + 1);
        let rest = last_of_each_from(s, lo + 1);
        if last_of_name(s, lo) {
            let r = last_of_each_from(s, lo);
            assert(r == seq![s[lo]] + rest);
            assert forall|x: int| 0 <= x < r.len() implies exists|i: int| lo <= i < s.len()
                && last_of_name(s, i) && #[trigger] r[x] == s[i] by {
                if x > 0 {
                    assert(r[x] == rest[x - 1]);
                }
            }
            assert forall|a: int, b: int| 0 <= a < b < r.len() implies (#[trigger] r[a]).name() != (#[trigger] r[b]).name() by {
                if a == 0 {
                    assert(r[b] == rest[b - 1]);
                    let i = choose|i: int| lo + 1 <= i < s.len() && last_of_name(s, i) && #[trigger] rest[b - 1] == s[i];
                    assert(s[i].name() != s[lo].name());
                } else {
                    assert(r[a] == rest[a - 1] && r[b] == rest[b - 1]);
                }
            }
        }
    }
}

/// After removing the modules that share a name with a later one, no two
/// modules share a name.
pub proof fn lemma_dedup_names_distinct(s: Seq<DiscoveredModule>)
    ensures
        names_distinct(last_of_each(s)),
{
    lemma_last_of_each_from(s, 0);
}

/// The module name made from a non-empty repository name is a valid module
/// name.
pub proof fn lemma_repo_name_valid(repo: Seq<char>)
    requires
        repo.len() > 0,
    ensures
        is_valid_name(spec_repo_to_module(repo)),
{
    let m = repo.map_values(|c: char| module_char(c));
    assert forall|i: int| 0 <= i < m.len() implies is_ident_char(#[trigger] m[i]) by {
        let c = repo[i];
        if 'A' <= c && c <= 'Z' {
            assert(('a' <= ((c as int) + 32) as char) && (((c as int) + 32) as char <= 'z'));
        }
    }
    let r = spec_repo_to_module(repo);
    if '0' <= m[0] && m[0] <= '9' {
        assert(r == seq!['_'] + m);
        assert forall|i: int| 1 <= i < r.len() implies is_ident_char(#[trigger] r[i]) by {
            assert(r[i] == m[i - 1]);
        }
    } else {
        assert(is_ident_char(m[0]));
    }
}

proof fn lemma_decimal(n: nat)
    ensures
        all_digits(decimal(n)),
        decimal_value(decimal(n)) == n,
        decimal(n).len() > 0,
    decreases n,
{
    if n < 10 {
        let d = decimal(n);
        assert(d == seq![digit_char(n as int)]);
        assert(d.drop_last() == Seq::<char>::empty());
        assert(decimal_value(Seq::<char>::empty()) == 0);
    } else {
        lemma_decimal(n / 10);
        let d = decimal(n);
        assert(d.drop_last() == decimal(n / 10));
        assert forall|i: int| 0 <= i < d.len() implies is_digit(#[trigger] d[i]) by {
            if i < d.len() - 1 {
                assert(d[i] == decimal(n / 10)[i]);
            }
        }
    }
}

proof fn lemma_decimal2(n: nat)
    ensures
        all_digits(decimal2(n)),
        decimal_value(decimal2(n)) == n,
        decimal2(n).len() > 0,
{
    lemma_decimal(n);
    if n < 10 {
        let d = decimal2(n);
        assert(d.drop_last() == seq!['0']);
        assert(seq!['0'].drop_last() == Seq::<char>::empty());
        assert(decimal_value(Seq::<char>::empty()) == 0);
        assert(decimal_value(seq!['0']) == 0);
    }
}

/// The load order read back from a module directory's name is the prefix
/// it was named with.
pub proof fn lemma_dir_name_order(prefix: u32, name: Seq<char>)
    ensures
        spec_prefix_order(module_dir_name(prefix as nat, name)) == Some(prefix),
{
    lemma_decimal2(prefix as nat);
    let d = decimal2(prefix as nat);
    let full = module_dir_name(prefix as nat, name);
    assert(full == d + seq!['_'] + name);
    assert forall|j: int| 0 <= j < d.len() implies full[j] != '_' by {
        assert(full[j] == d[j]);
        assert(is_digit(d[j]));
    }
    assert(full[d.len() as int] == '_');
    lemma_first_index_is(full, '_', d.len() as int);
    assert(name_prefix(full) == d);
    assert(d[0] != '+') by {
        assert(is_digit(d[0]));
    }
    assert(unsigned_part(d) == d);
}

/// A renumbered directory's name gives its position (from 1) as its load
/// order, and keeps what followed the old number.
pub proof fn lemma_renumbered_order(i: nat, name: Seq<char>)
    requires
        i + 1 <= u32::MAX,
    ensures
        spec_prefix_order(renumbered(i, name)) == Some((i + 1) as u32),
        renumbered(i, name) == module_dir_name(i + 1, name_suffix(name)),
{
    lemma_dir_name_order((i + 1) as u32, name_suffix(name));
}

/// The next prefix of a directory is above every prefix found there.
pub proof fn lemma_next_prefix_above(modules: Seq<DiscoveredModule>, write_index: Option<usize>, directory: Seq<char>)
    ensures
        forall|i: int| 0 <= i < modules.len() && in_write_directory(#[trigger] modules[i], write_index, directory)
            && modules[i].prefix_order is Some ==> modules[i].prefix_order->0 < max_prefix(modules, write_index, directory) + 1,
    decreases modules.len(),
{
    if modules.len() > 0 {
        lemma_next_prefix_above(modules.drop_last(), write_index, directory);
        assert forall|i: int| 0 <= i < modules.len() && in_write_directory(#[trigger] modules[i], write_index, directory)
            && modules[i].prefix_order is Some implies modules[i].prefix_order->0 < max_prefix(modules, write_index, directory) + 1 by {
            if i < modules.len() - 1 {
                assert(modules[i] == modules.drop_last()[i]);
            }
        }
    }
}

/// A text all of whose lines are comments (`#` after leading white space)
/// defines no shell function.
pub proof fn lemma_comments_define_nothing(content: Seq<char>, name: Seq<char>)
    requires
        forall|l: int| 0 <= l < lines_of(content).len() ==> {
            let t = trim_start(#[trigger] lines_of(content)[l]);
            t.len() > 0 && t[0] == '#'
        },
    ensures
        !defines_function(content, name),
{
    if defines_function(content, name) {
        let l = choose|l: int| 0 <= l < lines_of(content).len() && line_defines(#[trigger] lines_of(content)[l], name);
    }
}

proof fn lemma_last_of_each_len(s: Seq<DiscoveredModule>, lo: int)
    requires
        0 <= lo <= s.len(),
    ensures
        last_of_each_from(s, lo).len() <= s.len() - lo,
    decreases s.len() - lo,
{
    if lo < s.len() {
        lemma_last_of_each_len(s, lo + 1);
    }
}

proof fn lemma_chain_loaded(sorted: Seq<DiscoveredModule>, r: Seq<DiscoveredModule>, q: Seq<int>, t: int)
    requires
        r.len() == sorted.len(),
        forall|i: int| 0 <= i < r.len() ==> same_but_status(sorted[i], #[trigger] r[i]),
        forall|i: int| 0 <= i < r.len() && (#[trigger] r[i]).status is Loaded ==> dependencies_met(r, i),
        names_distinct(r),
        dependency_chain(sorted, q),
        r[q[0]].status is Loaded,
        0 <= t < q.len(),
    ensures
        r[q[t]].status is Loaded,
    decreases t,
{
    if t > 0 {
        let u = t - 1;
        lemma_chain_loaded(sorted, r, q, u);
        assert(lists_dependency(sorted[q[u]], sorted[q[u + 1]].name()));
        let i = q[u];
        let j = q[u + 1];
        assert(0 <= i < r.len() && 0 <= j < r.len());
        assert(same_but_status(sorted[i], r[i]) && same_but_status(sorted[j], r[j]));
        let k = choose|k: int| 0 <= k < dep_count(sorted[i]) && #[trigger] dep_name(sorted[i], k) == sorted[j].name();
        assert(dep_name(r[i], k) == r[j].name());
        assert(dependencies_met(r, i));
        let m = choose|m: int| 0 <= m < r.len() && (#[trigger] r[m]).status is Loaded && r[m].name() == dep_name(r[i], k)
            && version_accepted(r[i], k, r[m]);
        if m != j {
            if m < j {
                assert(r[m].name() != r[j].name());
            } else {
                assert(r[j].name() != r[m].name());
            }
        }
    }
}

/// In what the loader gives for the modules read from the directories
/// (the last of each name kept), every loaded module comes after each
/// module it names as a dependency.
pub proof fn lemma_loaded_after_dependencies(read: Seq<DiscoveredModule>, available: Seq<String>, r: Seq<DiscoveredModule>)
    requires
        load_outcome(last_of_each(read), available, r),
        read.len() <= usize::MAX,
    ensures
        forall|a: int, b: int| 0 <= a < r.len() && 0 <= b < r.len() && r[a].status is Loaded
            && #[trigger] lists_dependency(r[a], r[b].name()) ==> b < a,
{
    let found = last_of_each(read);
    lemma_dedup_names_distinct(read);
    lemma_last_of_each_len(read, 0);
    lemma_load_keeps_names_distinct(found, available, r);
    let sorted = choose|sorted: Seq<DiscoveredModule>| #[trigger] sort_outcome(found, sorted) && checks_outcome(sorted, available, r);
    let (checked, any) = choose|checked: Seq<DiscoveredModule>, any: Seq<DiscoveredModule>|
        #![trigger cmds_applied(sorted, checked, available), any_cmds_applied(checked, any, available)]
        cmds_applied(sorted, checked, available) && any_cmds_applied(checked, any, available) && validation_outcome(any, r);
    lemma_dependencies_first(found, sorted);
    lemma_loaded_dependencies(any, r);
    assert forall|i: int| 0 <= i < r.len() implies same_but_status(sorted[i], #[trigger] r[i])
        && (r[i].status is Loaded ==> sorted[i].status is Loaded) by {
        assert(any_cmds_checked(checked[i], any[i], available));
        assert(cmds_checked(sorted[i], checked[i], available));
        assert(same_but_status(sorted[i], checked[i]) && same_but_status(checked[i], any[i]) && same_but_status(any[i], r[i]));
    }
    assert forall|a: int, b: int| 0 <= a < r.len() && 0 <= b < r.len() && r[a].status is Loaded
        && #[trigger] lists_dependency(r[a], r[b].name()) implies b < a by {
        assert(sorted[a].status is Loaded);
        assert(same_but_status(sorted[a], r[a]) && same_but_status(sorted[b], r[b]));
        let k = choose|k: int| 0 <= k < dep_count(r[a]) && #[trigger] dep_name(r[a], k) == r[b].name();
        assert(dep_name(sorted[a], k) == sorted[b].name());
        assert(lists_dependency(sorted[a], sorted[b].name()));
        if b >= a {
            assert(waits_on_cycle(sorted, a));
            let q = choose|q: Seq<int>| #[trigger] dependency_chain(sorted, q) && q[0] == a && sorted[q.last()].status is SkippedCycle;
            lemma_chain_loaded(sorted, r, q, q.len() - 1);
            assert(r[q[q.len() - 1]].status is Loaded);
            assert(q[q.len() - 1] == q.last());
        }
    }
}

/// Ordering and checking the modules keep their names apart: when no two
/// modules found share a name, no two modules to load do.
pub proof fn lemma_load_keeps_names_distinct(found: Seq<DiscoveredModule>, available: Seq<String>, r: Seq<DiscoveredModule>)
    requires
        names_distinct(found),
        load_outcome(found, available, r),
    ensures
        names_distinct(r),
{
    let sorted = choose|sorted: Seq<DiscoveredModule>| #[trigger] sort_outcome(found, sorted) && checks_outcome(sorted, available, r);
    let (checked, any) = choose|checked: Seq<DiscoveredModule>, any: Seq<DiscoveredModule>|
        #![trigger cmds_applied(sorted, checked, available), any_cmds_applied(checked, any, available)]
        cmds_applied(sorted, checked, available) && any_cmds_applied(checked, any, available) && validation_outcome(any, r);
    let (marked, order, placed) = choose|marked: Seq<DiscoveredModule>, order: Seq<usize>, placed: int|
        sort_witness(found, marked, order, placed, sorted);
    assert forall|a: int, b: int| 0 <= a < b < r.len() implies (#[trigger] r[a]).name() != (#[trigger] r[b]).name() by {
        assert(any_cmds_checked(checked[a], any[a], available));
        assert(cmds_checked(sorted[a], checked[a], available));
        assert(any_cmds_checked(checked[b], any[b], available));
        assert(cmds_checked(sorted[b], checked[b], available));
        assert(same_but_status(sorted[a], checked[a]) && same_but_status(checked[a], any[a]) && same_but_status(any[a], r[a]));
        assert(same_but_status(sorted[b], checked[b]) && same_but_status(checked[b], any[b]) && same_but_status(any[b], r[b]));
        let oa = order[a] as int;
        let ob = order[b] as int;
        assert(same_but_status(marked[oa], sorted[a]));
        assert(same_but_status(marked[ob], sorted[b]));
        assert(crate::graph::duplicates_marked(found[oa], marked[oa]));
        assert(crate::graph::duplicates_marked(found[ob], marked[ob]));
        assert(oa != ob);
        if oa < ob {
            assert(found[oa].name() != found[ob].name());
        } else {
            assert(found[ob].name() != found[oa].name());
        }
    }
}


/// Making a module name from a repository name a second time changes
/// nothing, and the name is as long as the repository name, with one more
/// character where that begins with a digit.
pub proof fn lemma_repo_name_stable(repo: Seq<char>)
    ensures
        spec_repo_to_module(spec_repo_to_module(repo)) == spec_repo_to_module(repo),
        spec_repo_to_module(repo).len() == repo.len() + if repo.len() > 0 && '0' <= repo[0] && repo[0] <= '9' { 1int } else { 0int },
{
    let m = repo.map_values(|c: char| module_char(c));
    let r = spec_repo_to_module(repo);
    assert forall|i: int| 0 <= i < r.len() implies module_char(#[trigger] r[i]) == r[i] by {
        if r.len() > m.len() && i == 0 {
            assert(r[0] == '_');
        } else {
            let j = if r.len() > m.len() { i - 1 } else { i };
            assert(r[i] == m[j]);
            let c = repo[j];
            if 'A' <= c && c <= 'Z' {
                assert(('a' <= ((c as int) + 32) as char) && (((c as int) + 32) as char <= 'z'));
            }
        }
    }
    let m2 = r.map_values(|c: char| module_char(c));
    assert(m2 =~= r);
    if repo.len() > 0 {
        let c = repo[0];
        if 'A' <= c && c <= 'Z' {
            assert(('a' <= ((c as int) + 32) as char) && (((c as int) + 32) as char <= 'z'));
        }
        assert(('0' <= m[0] && m[0] <= '9') == ('0' <= c && c <= '9'));
    }
}


/// A package spec is refused exactly when its repository part (before a
/// branch) has none of the prefixes `http://`, `https://`, `github:`,
/// `gitlab:` and no `/`; an address read from it names a repository without
/// `/`, and the address cloned ends in `.git`.
pub proof fn lemma_spec_refused_exactly(spec: Seq<char>)
    ensures
        ({
            let base = split_branch(spec).0;
            raw_url(base) is None <==> (!has_prefix(base, "http://"@) && !has_prefix(base, "https://"@)
                && !has_prefix(base, "github:"@) && !has_prefix(base, "gitlab:"@) && !base.contains('/'))
        }),
        raw_url(split_branch(spec).0) matches Some(u) ==> !repository_of(sanitized(u)).contains('/')
            && (sanitized(u) + ".git"@).subrange(sanitized(u).len() as int, sanitized(u).len() as int + 4) == ".git"@,
{
    let base = split_branch(spec).0;
    lemma_first_index_of(base, '/');
    if base.contains('/') {
        let k = choose|k: int| 0 <= k < base.len() && base[k] == '/';
        assert(first_index_of(base, '/') >= 0);
    }
    if raw_url(base) is Some {
        let u = raw_url(base)->0;
        let t = sanitized(u);
        lemma_last_index_of(t, '/');
        let r = repository_of(t);
        assert forall|j: int| 0 <= j < r.len() implies r[j] != '/' by {
            assert(r[j] == t[last_index_of(t, '/') + 1 + j]);
        }
        reveal_strlit(".git");
        assert((t + ".git"@).subrange(t.len() as int, t.len() as int + 4) =~= ".git"@);
    }
}


/// The module `rm` picks is the first that has the name asked for (and lies
/// in the directory asked for, where one is): there is one exactly when the
/// search does not answer -1, and no module before it qualifies.
pub proof fn lemma_first_target(s: Seq<DiscoveredModule>, name: Seq<char>, filter: Option<Seq<char>>, lo: int)
    requires
        0 <= lo <= s.len(),
    ensures
        first_target_from(s, name, filter, lo) == -1 <==> forall|i: int| lo <= i < s.len() ==> !is_target(#[trigger] s[i], name, filter),
        first_target_from(s, name, filter, lo) != -1 ==> {
            let f = first_target_from(s, name, filter, lo);
            &&& lo <= f < s.len()
            &&& is_target(s[f], name, filter)
            &&& forall|j: int| lo <= j < f ==> !is_target(#[trigger] s[j], name, filter)
        },
    decreases s.len() - lo,
{
    if lo < s.len() && !is_target(s[lo], name, filter) {
        lemma_first_target(s, name, filter, lo + 1);
    }
}

/// The name a module directory has once a renumbering plan is carried out:
/// the new name where there is one, else the old.
pub open spec fn planned_name(names: Seq<Seq<char>>, plan: Seq<Option<Seq<char>>>, i: int) -> Seq<char> {
    match plan[i] {
        Some(n) => n,
        None => names[i],
    }
}

/// Carrying out the plan that `renumber_modules` gives (stated as its
/// `ensures`) names the directories `01_..`, `02_..`, ... in order, each
/// keeping what followed the first `_` of its name.
pub proof fn lemma_plan_is_sequential(names: Seq<Seq<char>>, plan: Seq<Option<Seq<char>>>)
    requires
        plan.len() == names.len(),
        forall|i: int| 0 <= i < names.len() ==> match #[trigger] plan[i] {
            Some(n) => n == renumbered(i as nat, names[i]) && n != names[i],
            None => renumbered(i as nat, names[i]) == names[i],
        },
    ensures
        forall|i: int| 0 <= i < names.len() ==> #[trigger] planned_name(names, plan, i) == decimal2((i + 1) as nat) + seq!['_'] + name_suffix(names[i]),
{
    assert forall|i: int| 0 <= i < names.len() implies #[trigger] planned_name(names, plan, i) == decimal2((i + 1) as nat) + seq!['_'] + name_suffix(names[i]) by {
        match plan[i] {
            Some(n) => {},
            None => {},
        }
    }
}


/// The dependency entries naming `x` among the first `hi` modules whose
/// names are in `list`.
pub open spec fn named_mentions(s: Seq<DiscoveredModule>, list: Seq<Seq<char>>, x: Seq<char>, hi: int) -> nat
    decreases hi,
{
    if hi <= 0 {
        0
    } else {
        named_mentions(s, list, x, hi - 1) + if list.contains(s[hi - 1].name()) { mentions(s[hi - 1], x) } else { 0nat }
    }
}

/// The dependency entries naming `x` among the first `hi` modules called `p`.
pub open spec fn mentions_of_name(s: Seq<DiscoveredModule>, p: Seq<char>, x: Seq<char>, hi: int) -> nat
    decreases hi,
{
    if hi <= 0 {
        0
    } else {
        mentions_of_name(s, p, x, hi - 1) + if s[hi - 1].name() == p { mentions(s[hi - 1], x) } else { 0nat }
    }
}

proof fn lemma_first_named_props(s: Seq<DiscoveredModule>, p: Seq<char>, lo: int)
    requires
        0 <= lo <= s.len(),
    ensures
        first_named_from(s, p, lo) == -1 || (lo <= first_named_from(s, p, lo) < s.len() && s[first_named_from(s, p, lo)].name() == p),
        first_named_from(s, p, lo) == -1 ==> forall|i: int| lo <= i < s.len() ==> (#[trigger] s[i]).name() != p,
    decreases s.len() - lo,
{
    if lo < s.len() && s[lo].name() != p {
        lemma_first_named_props(s, p, lo + 1);
    }
}

proof fn lemma_mentions_of_name(s: Seq<DiscoveredModule>, p: Seq<char>, x: Seq<char>, hi: int)
    requires
        names_distinct(s),
        0 <= hi <= s.len(),
    ensures
        mentions_of_name(s, p, x, hi) == if 0 <= first_named(s, p) < hi { mentions(s[first_named(s, p)], x) } else { 0nat },
    decreases hi,
{
    lemma_first_named_props(s, p, 0);
    if hi > 0 {
        lemma_mentions_of_name(s, p, x, hi - 1);
        let f = first_named(s, p);
        if s[hi - 1].name() == p && f != hi - 1 {
            if f < hi - 1 {
                assert(s[f].name() != s[hi - 1].name());
            }
        }
    }
}

proof fn lemma_named_mentions_push(s: Seq<DiscoveredModule>, list: Seq<Seq<char>>, p: Seq<char>, x: Seq<char>, hi: int)
    requires
        !list.contains(p),
        0 <= hi <= s.len(),
    ensures
        named_mentions(s, list.push(p), x, hi) == named_mentions(s, list, x, hi) + mentions_of_name(s, p, x, hi),
    decreases hi,
{
    if hi > 0 {
        lemma_named_mentions_push(s, list, p, x, hi - 1);
        let n = s[hi - 1].name();
        assert(list.push(p).contains(n) <==> (list.contains(n) || n == p)) by {
            if list.push(p).contains(n) {
                let k = choose|k: int| 0 <= k < list.push(p).len() && list.push(p)[k] == n;
                if k < list.len() {
                    assert(list[k] == n);
                }
            }
            if list.contains(n) {
                let k = choose|k: int| 0 <= k < list.len() && list[k] == n;
                assert(list.push(p)[k] == n);
            }
            if n == p {
                assert(list.push(p)[list.len() as int] == n);
            }
        }
    }
}

proof fn lemma_released_named(s: Seq<DiscoveredModule>, list: Seq<Seq<char>>, x: Seq<char>)
    requires
        names_distinct(s),
        list.no_duplicates(),
    ensures
        released(s, list, x) == named_mentions(s, list, x, s.len() as int),
    decreases list.len(),
{
    if list.len() == 0 {
        lemma_named_mentions_empty(s, list, x, s.len() as int);
    } else {
        let l = list.drop_last();
        let p = list.last();
        assert(l.no_duplicates());
        assert(!l.contains(p)) by {
            if l.contains(p) {
                let k = choose|k: int| 0 <= k < l.len() && l[k] == p;
                assert(list[k] == list[list.len() - 1]);
            }
        }
        lemma_released_named(s, l, x);
        assert(l.push(p) =~= list);
        lemma_named_mentions_push(s, l, p, x, s.len() as int);
        lemma_mentions_of_name(s, p, x, s.len() as int);
        lemma_first_named_props(s, p, 0);
    }
}

proof fn lemma_named_mentions_empty(s: Seq<DiscoveredModule>, list: Seq<Seq<char>>, x: Seq<char>, hi: int)
    requires
        list.len() == 0,
        hi <= s.len(),
    ensures
        named_mentions(s, list, x, hi) == 0,
    decreases hi,
{
    if hi > 0 {
        lemma_named_mentions_empty(s, list, x, hi - 1);
    }
}

/// The mentions counted among named modules are at most all mentions, and
/// fall short where some module outside the list mentions `x`.
proof fn lemma_named_mentions_le(s: Seq<DiscoveredModule>, list: Seq<Seq<char>>, x: Seq<char>, hi: int)
    requires
        0 <= hi <= s.len(),
    ensures
        named_mentions(s, list, x, hi) <= in_degree_upto(s, x, hi),
        (exists|i: int| 0 <= i < hi && !list.contains((#[trigger] s[i]).name()) && mentions(s[i], x) > 0)
            ==> named_mentions(s, list, x, hi) < in_degree_upto(s, x, hi),
    decreases hi,
{
    if hi > 0 {
        lemma_named_mentions_le(s, list, x, hi - 1);
    }
}

/// `x` is a dependency of a module named in `r`, and every module that
/// lists `x` as a dependency is named in `r`.
pub open spec fn cascade_entry_closed(s: Seq<DiscoveredModule>, r: Seq<Seq<char>>, x: Seq<char>) -> bool {
    &&& exists|i: int| 0 <= i < s.len() && r.contains((#[trigger] s[i]).name()) && lists_dependency(s[i], x)
    &&& forall|i: int| 0 <= i < s.len() && lists_dependency(#[trigger] s[i], x) ==> r.contains(s[i].name())
}

/// The modules a removal cascades to: the modules asked for come first,
/// none is named twice, and each further one is a dependency of a module in
/// the list whose every user is in the list too; when names are distinct.
pub proof fn lemma_cascade_closed(s: Seq<DiscoveredModule>, start: Seq<Seq<char>>, r: Seq<Seq<char>>)
    requires
        names_distinct(s),
        start.no_duplicates(),
        cascade_outcome(s, start, r),
    ensures
        r.take(start.len() as int) == start,
        r.no_duplicates(),
        forall|q: int| #![trigger r[q]] start.len() <= q < r.len() ==> cascade_entry_closed(s, r, r[q]),
{
    let k = start.len() as int;
    assert(r.take(k) =~= r.subrange(0, k));
    assert(r.no_duplicates()) by {
        assert forall|a: int, b: int| 0 <= a < r.len() && 0 <= b < r.len() && a != b implies r[a] != r[b] by {
            if a < k && b < k {
                assert(r[a] == start[a] && r[b] == start[b]);
            } else if a >= k && b >= k {
                assert(r.skip(k)[a - k] == r[a] && r.skip(k)[b - k] == r[b]);
            } else if a < k {
                assert(r[a] == start[a]);
                assert(!start.contains(r[b]));
            } else {
                assert(r[b] == start[b]);
                assert(!start.contains(r[a]));
            }
        }
    }
    assert forall|q: int| #![trigger r[q]] start.len() <= q < r.len() implies cascade_entry_closed(s, r, r[q]) by {
        lemma_cascade_entry(s, start, r, q);
    }
}

proof fn lemma_cascade_entry(s: Seq<DiscoveredModule>, start: Seq<Seq<char>>, r: Seq<Seq<char>>, q: int)
    requires
        names_distinct(s),
        r.no_duplicates(),
        cascade_outcome(s, start, r),
        start.len() <= q < r.len(),
    ensures
        cascade_entry_closed(s, r, r[q]),
{
    let x = r[q];
    let list = r.take(q);
    assert(orphaned_by(s, list, x));
    assert(list.no_duplicates()) by {
        assert forall|a: int, b: int| 0 <= a < list.len() && 0 <= b < list.len() && a != b implies list[a] != list[b] by {
            assert(list[a] == r[a] && list[b] == r[b]);
        }
    }
    lemma_released_named(s, list, x);
    lemma_named_mentions_le(s, list, x, s.len() as int);
    assert forall|i: int| 0 <= i < list.len() implies r.contains(#[trigger] list[i]) by {
        assert(list[i] == r[i]);
    }
    assert forall|i: int| 0 <= i < s.len() && lists_dependency(#[trigger] s[i], x) implies r.contains(s[i].name()) by {
        lemma_mentions_positive(s[i], x);
        if !list.contains(s[i].name()) {
            assert(named_mentions(s, list, x, s.len() as int) < in_degree_upto(s, x, s.len() as int));
        }
        let j = choose|j: int| 0 <= j < list.len() && list[j] == s[i].name();
        assert(r.contains(list[j]));
    }
    lemma_some_mention(s, x, s.len() as int);
    let i = choose|i: int| 0 <= i < s.len() && mentions(s[i], x) > 0;
    lemma_mention_listed(s[i], x);
    assert(lists_dependency(s[i], x));
    assert(r.contains(s[i].name()));
}

proof fn lemma_mentions_positive(m: DiscoveredModule, x: Seq<char>)
    requires
        lists_dependency(m, x),
    ensures
        mentions(m, x) > 0,
{
    let k = choose|k: int| 0 <= k < dep_count(m) && #[trigger] dep_name(m, k) == x;
    lemma_mentions_upto_pos(m, x, k, dep_count(m));
}

proof fn lemma_mentions_upto_pos(m: DiscoveredModule, x: Seq<char>, k: int, hi: int)
    requires
        0 <= k < hi,
        dep_name(m, k) == x,
    ensures
        crate::remove::mentions_upto(m, x, hi) > 0,
    decreases hi,
{
    if hi - 1 > k {
        lemma_mentions_upto_pos(m, x, k, hi - 1);
    }
}

proof fn lemma_mention_listed(m: DiscoveredModule, x: Seq<char>)
    requires
        mentions(m, x) > 0,
    ensures
        lists_dependency(m, x),
{
    lemma_mention_listed_upto(m, x, dep_count(m));
}

proof fn lemma_mention_listed_upto(m: DiscoveredModule, x: Seq<char>, hi: int)
    requires
        crate::remove::mentions_upto(m, x, hi) > 0,
        hi <= dep_count(m),
    ensures
        exists|k: int| 0 <= k < hi && #[trigger] dep_name(m, k) == x,
    decreases hi,
{
    if hi > 0 && dep_name(m, hi - 1) != x {
        lemma_mention_listed_upto(m, x, hi - 1);
    }
}

proof fn lemma_some_mention(s: Seq<DiscoveredModule>, x: Seq<char>, hi: int)
    requires
        0 <= hi <= s.len(),
        in_degree_upto(s, x, hi) > 0,
    ensures
        exists|i: int| 0 <= i < hi && mentions(#[trigger] s[i], x) > 0,
    decreases hi,
{
    if hi > 0 && mentions(s[hi - 1], x) == 0 {
        lemma_some_mention(s, x, hi - 1);
    }
}


/// `set` holds only modules loaded before the dependency check, and each
/// dependency entry of each of them names a module of `set` whose version
/// the entry accepts.
pub open spec fn dependency_closed(s: Seq<DiscoveredModule>, set: Set<int>) -> bool {
    forall|i: int| #[trigger] set.contains(i) ==> {
        &&& 0 <= i < s.len()
        &&& s[i].status is Loaded
        &&& forall|k: int| #![trigger dep_name(s[i], k)] 0 <= k < dep_count(s[i]) ==> exists|j: int|
            set.contains(j) && 0 <= j < s.len() && s[j].name() == dep_name(s[i], k) && version_accepted(s[i], k, s[j])
    }
}

/// The modules still loaded after the check.
pub open spec fn loaded_after(t: Seq<DiscoveredModule>) -> Set<int> {
    Set::new(|i: int| 0 <= i < t.len() && t[i].status is Loaded)
}

proof fn lemma_first_failure_entry(s: Seq<DiscoveredModule>, i: int, k0: int)
    requires
        first_failure_from(s, i, k0) is Some,
    ensures
        exists|k: int| 0 <= k < dep_count(s[i]) && #[trigger] dep_failure(s, i, k) is Some,
    decreases dep_count(s[i]) - k0,
{
    if !(dep_failure(s, i, k0) is Some) {
        lemma_first_failure_entry(s, i, k0 + 1);
    }
}

proof fn lemma_closed_kept(s: Seq<DiscoveredModule>, t: Seq<DiscoveredModule>, set: Set<int>, depth: Seq<nat>, i: int)
    requires
        validation_outcome(s, t),
        names_distinct(s),
        dependency_closed(s, set),
        depth.len() == s.len(),
        forall|v: int| 0 <= v < s.len() && s[v].status is Loaded && #[trigger] first_failure(s, v) is None
            && !(t[v].status is Loaded) ==> exists|u: int| dropped_for(s, t, u, v, depth),
        set.contains(i),
    ensures
        t[i].status is Loaded,
    decreases depth[i],
{
    assert(0 <= i < s.len() && s[i].status is Loaded);
    if !(t[i].status is Loaded) {
        if first_failure(s, i) is Some {
            lemma_first_failure_entry(s, i, 0);
            let k = choose|k: int| 0 <= k < dep_count(s[i]) && #[trigger] dep_failure(s, i, k) is Some;
            assert(exists|j: int| set.contains(j) && 0 <= j < s.len() && s[j].name() == dep_name(s[i], k) && version_accepted(s[i], k, s[j]));
            let j = choose|j: int| set.contains(j) && 0 <= j < s.len() && s[j].name() == dep_name(s[i], k) && version_accepted(s[i], k, s[j]);
            assert(s[j].status is Loaded);
            let name = dep_name(s[i], k);
            lemma_lookup_loaded(s, name);
            let l = lookup_loaded(s, name);
            if l < 0 {
                assert(!(s[j].status is Loaded && s[j].name() == name));
            } else {
                if l != j {
                    if l < j {
                        assert(s[l].name() != s[j].name());
                    } else {
                        assert(s[j].name() != s[l].name());
                    }
                }
            }
        } else {
            let u = choose|u: int| dropped_for(s, t, u, i, depth);
            let k = choose|k: int| 0 <= k < dep_count(s[i]) && #[trigger] lookup_loaded(s, dep_name(s[i], k)) == u;
            let name = dep_name(s[i], k);
            assert(exists|j: int| set.contains(j) && 0 <= j < s.len() && s[j].name() == dep_name(s[i], k) && version_accepted(s[i], k, s[j]));
            let j = choose|j: int| set.contains(j) && 0 <= j < s.len() && s[j].name() == dep_name(s[i], k) && version_accepted(s[i], k, s[j]);
            assert(s[j].status is Loaded);
            lemma_lookup_loaded(s, name);
            if u != j {
                if u < j {
                    assert(s[u].name() != s[j].name());
                } else {
                    assert(s[j].name() != s[u].name());
                }
            }
            lemma_closed_kept(s, t, set, depth, u);
        }
    }
}

/// The modules the dependency check leaves loaded are the largest set of
/// modules, among those loaded before it, whose every dependency entry names
/// a module of the set of a version it accepts: that set has this property,
/// and every set that has it is part of it; when module names are distinct.
pub proof fn lemma_loaded_largest_closed(s: Seq<DiscoveredModule>, t: Seq<DiscoveredModule>)
    requires
        validation_outcome(s, t),
        names_distinct(s),
    ensures
        dependency_closed(s, loaded_after(t)),
        forall|set: Set<int>| #[trigger] dependency_closed(s, set) ==> set.subset_of(loaded_after(t)),
{
    lemma_loaded_dependencies(s, t);
    assert forall|i: int| #[trigger] loaded_after(t).contains(i) implies {
        &&& 0 <= i < s.len()
        &&& s[i].status is Loaded
        &&& forall|k: int| #![trigger dep_name(s[i], k)] 0 <= k < dep_count(s[i]) ==> exists|j: int|
            loaded_after(t).contains(j) && 0 <= j < s.len() && s[j].name() == dep_name(s[i], k) && version_accepted(s[i], k, s[j])
    } by {
        assert(t[i].status is Loaded);
        assert(dependencies_met(t, i));
        assert(same_but_status(s[i], t[i]));
        assert forall|k: int| #![trigger dep_name(s[i], k)] 0 <= k < dep_count(s[i]) implies exists|j: int|
            loaded_after(t).contains(j) && 0 <= j < s.len() && s[j].name() == dep_name(s[i], k) && version_accepted(s[i], k, s[j]) by {
            assert(dep_name(t[i], k) == dep_name(s[i], k));
            let j = choose|j: int| 0 <= j < t.len() && (#[trigger] t[j]).status is Loaded && t[j].name() == dep_name(t[i], k) && version_accepted(t[i], k, t[j]);
            assert(same_but_status(s[j], t[j]));
            assert(loaded_after(t).contains(j));
        }
    }
    let depth = choose|depth: Seq<nat>| depth.len() == s.len() && forall|i: int| 0 <= i < s.len() && s[i].status is Loaded
        && #[trigger] first_failure(s, i) is None && !(t[i].status is Loaded)
        ==> exists|u: int| dropped_for(s, t, u, i, depth);
    assert forall|set: Set<int>| #[trigger] dependency_closed(s, set) implies set.subset_of(loaded_after(t)) by {
        assert forall|i: int| set.contains(i) implies loaded_after(t).contains(i) by {
            lemma_closed_kept(s, t, set, depth, i);
        }
    }
}

} // verus!
