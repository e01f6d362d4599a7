//! The checks that decide which of the ordered modules are loaded: their
//! dependencies (present, loaded, of a matching version) and the commands
//! they need.
use vstd::prelude::*;
use crate::types::{DiscoveredModule, ModuleStatus};
use crate::graph::{dep_name, dep_count, same_but_status, count_unplaced, lemma_count_unplaced_update, module_name_chars};
use crate::version::{satisfies, spec_satisfies};
use crate::text::{chars_of, chars_equal, push_str, string_from_chars, push_chars, find_from, skip_spaces,
    range_has_prefix, lemma_first_index_is, lemma_first_index_none, first_index_of, lines_of, trim_start,
    has_prefix, strip_cr};

verus! {

/// The index of the last loaded module called `name`, or -1.
pub open spec fn lookup_loaded(s: Seq<DiscoveredModule>, name: Seq<char>) -> int
    decreases s.len(),
{
    if s.len() == 0 {
        -1
    } else if s.last().status is Loaded && s.last().name() == name {
        s.len() - 1
    } else {
        lookup_loaded(s.drop_last(), name)
    }
}

pub proof fn lemma_lookup_loaded(s: Seq<DiscoveredModule>, name: Seq<char>)
    ensures
        -1 <= lookup_loaded(s, name) < s.len(),
        lookup_loaded(s, name) >= 0 ==> s[lookup_loaded(s, name)].name() == name
            && s[lookup_loaded(s, name)].status is Loaded,
        forall|j: int| lookup_loaded(s, name) < j < s.len() ==> !(s[j].status is Loaded && s[j].name() == name),
    decreases s.len(),
{
    if s.len() > 0 && !(s.last().status is Loaded && s.last().name() == name) {
        lemma_lookup_loaded(s.drop_last(), name);
        assert forall|j: int| lookup_loaded(s, name) < j < s.len() implies !(s[j].status is Loaded && s[j].name() == name) by {
            if j < s.len() - 1 {
                assert(s[j] == s.drop_last()[j]);
            }
        }
        if lookup_loaded(s, name) >= 0 {
            assert(s[lookup_loaded(s, name)] == s.drop_last()[lookup_loaded(s, name)]);
        }
    }
}

/// How dependency entry `k` of module `i` fails, if it does: `(true, text)`
/// for a missing or unmatched dependency, `(false, text)` for a constraint
/// that cannot be checked. Dependencies resolve among the loaded modules.
pub open spec fn dep_failure(s: Seq<DiscoveredModule>, i: int, k: int) -> Option<(bool, Seq<char>)> {
    let name = dep_name(s[i], k);
    let j = lookup_loaded(s, name);
    if j < 0 {
        Some((true, name))
    } else {
        match s[i].manifest.module.deps@[k].version {
            None => None,
            Some(c) => match spec_satisfies(s[j].manifest.module.version@, c@) {
                Ok(b) => if b { None } else { Some((true, name + "@"@ + c@)) },
                Err(e) => Some((false, "dep '"@ + name + "': "@ + e)),
            },
        }
    }
}

/// The first failing dependency entry of module `i` from `k` on.
pub open spec fn first_failure_from(s: Seq<DiscoveredModule>, i: int, k: int) -> Option<(bool, Seq<char>)>
    decreases dep_count(s[i]) - k,
{
    if k < 0 || k >= dep_count(s[i]) {
        None
    } else if dep_failure(s, i, k) is Some {
        dep_failure(s, i, k)
    } else {
        first_failure_from(s, i, k + 1)
    }
}

/// The first failing dependency entry of module `i`.
pub open spec fn first_failure(s: Seq<DiscoveredModule>, i: int) -> Option<(bool, Seq<char>)> {
    first_failure_from(s, i, 0)
}

/// The status that reports a failed dependency.
pub open spec fn failure_status(status: ModuleStatus, f: (bool, Seq<char>)) -> bool {
    if f.0 {
        status matches ModuleStatus::SkippedMissingDep(n) && n@ == f.1
    } else {
        status matches ModuleStatus::SkippedBadConstraint(n) && n@ == f.1
    }
}

/// Loaded module `v` names loaded module `u` among its dependencies.
pub open spec fn dep_edge(s: Seq<DiscoveredModule>, u: int, v: int) -> bool {
    &&& 0 <= u < s.len()
    &&& 0 <= v < s.len()
    &&& s[v].status is Loaded
    &&& exists|k: int| 0 <= k < dep_count(s[v]) && #[trigger] lookup_loaded(s, dep_name(s[v], k)) == u
}

/// Module `i` was dropped because `u`, one of its dependencies, was dropped
/// before it.
pub open spec fn dropped_for(s: Seq<DiscoveredModule>, t: Seq<DiscoveredModule>, u: int, i: int, depth: Seq<nat>) -> bool {
    &&& dep_edge(s, u, i)
    &&& !(t[u].status is Loaded)
    &&& depth[u] < depth[i]
    &&& t[i].status matches ModuleStatus::SkippedMissingDep(n) && n@ == s[u].name()
}

/// The loaded modules below `hi` whose own dependency entries fail, in
/// order.
pub open spec fn direct_drops(s: Seq<DiscoveredModule>, hi: int) -> Seq<usize>
    decreases hi,
{
    if hi <= 0 {
        Seq::empty()
    } else if s[hi - 1].status is Loaded && first_failure(s, hi - 1) is Some {
        direct_drops(s, hi - 1).push((hi - 1) as usize)
    } else {
        direct_drops(s, hi - 1)
    }
}

/// The entries of `row` that are not in `queue`, in order.
pub open spec fn fresh_of(row: Seq<usize>, queue: Seq<usize>) -> Seq<usize>
    decreases row.len(),
{
    if row.len() == 0 {
        Seq::empty()
    } else if queue.contains(row.last()) {
        fresh_of(row.drop_last(), queue)
    } else {
        fresh_of(row.drop_last(), queue).push(row.last())
    }
}

/// The drop order grown from `queue`, the modules before `head` already
/// taken: each module taken adds the loaded modules that depend on it and
/// are not in the order yet, in increasing order.
pub open spec fn drop_queue(s: Seq<DiscoveredModule>, queue: Seq<usize>, head: nat, fuel: nat) -> Seq<usize>
    decreases fuel,
{
    if fuel == 0 || head >= queue.len() {
        queue
    } else {
        drop_queue(s, queue + fresh_of(dependents_spec(s, queue[head as int] as int, s.len() as int), queue),
            head + 1, (fuel - 1) as nat)
    }
}

/// The order in which the dependency check drops modules: first the loaded
/// modules whose own entries fail, in order; then, taking the dropped
/// modules in this order, the loaded modules that depend on each and are not
/// dropped yet, in increasing order.
pub open spec fn dropped_order(s: Seq<DiscoveredModule>) -> Seq<usize> {
    drop_queue(s, direct_drops(s, s.len() as int), 0, (s.len() + 1) as nat)
}

/// The first position from `lo` on in `q` of a module that `v` depends on,
/// or -1.
pub open spec fn first_edge_from(s: Seq<DiscoveredModule>, q: Seq<usize>, v: int, lo: int) -> int
    decreases q.len() - lo,
{
    if lo < 0 || lo >= q.len() {
        -1
    } else if dep_edge(s, q[lo] as int, v) {
        lo
    } else {
        first_edge_from(s, q, v, lo + 1)
    }
}

/// A module dropped for a dropped dependency names the first module, in
/// the order the check drops them, that it depends on.
pub open spec fn names_first_dropped(s: Seq<DiscoveredModule>, t: Seq<DiscoveredModule>) -> bool {
    forall|v: int| 0 <= v < s.len() && s[v].status is Loaded && #[trigger] first_failure(s, v) is None
        && !(t[v].status is Loaded) ==> {
            let h = first_edge_from(s, dropped_order(s), v, 0);
            &&& 0 <= h < dropped_order(s).len()
            &&& t[v].status matches ModuleStatus::SkippedMissingDep(n) && n@ == s[dropped_order(s)[h] as int].name()
        }
}

proof fn lemma_first_edge_at(s: Seq<DiscoveredModule>, q: Seq<usize>, v: int, lo: int, k: int)
    requires
        0 <= lo <= k < q.len(),
        forall|h: int| lo <= h < k ==> !dep_edge(s, #[trigger] q[h] as int, v),
        dep_edge(s, q[k] as int, v),
    ensures
        first_edge_from(s, q, v, lo) == k,
    decreases k - lo,
{
    if lo < k {
        assert(!dep_edge(s, q[lo] as int, v));
        lemma_first_edge_at(s, q, v, lo + 1, k);
    }
}

proof fn lemma_first_edge_push(s: Seq<DiscoveredModule>, q: Seq<usize>, x: usize, v: int, lo: int)
    requires
        0 <= lo,
        first_edge_from(s, q, v, lo) >= 0,
    ensures
        first_edge_from(s, q.push(x), v, lo) == first_edge_from(s, q, v, lo),
    decreases q.len() - lo,
{
    if lo < q.len() && !dep_edge(s, q[lo] as int, v) {
        assert(q.push(x)[lo] == q[lo]);
        lemma_first_edge_push(s, q, x, v, lo + 1);
    } else if lo < q.len() {
        assert(q.push(x)[lo] == q[lo]);
    }
}

proof fn lemma_fresh_within(row: Seq<usize>, queue: Seq<usize>, x: usize)
    requires
        fresh_of(row, queue).contains(x),
    ensures
        row.contains(x),
    decreases row.len(),
{
    if row.len() > 0 {
        let r = fresh_of(row.drop_last(), queue);
        if r.contains(x) {
            lemma_fresh_within(row.drop_last(), queue, x);
            let k = choose|k: int| 0 <= k < row.drop_last().len() && row.drop_last()[k] == x;
            assert(row[k] == x);
        } else {
            assert(row.last() == x);
            assert(row[row.len() - 1] == x);
        }
    }
}

proof fn lemma_short_unique(q: Seq<usize>, n: nat)
    requires
        q.no_duplicates(),
        forall|t: int| 0 <= t < q.len() ==> (#[trigger] q[t]) < n,
    ensures
        q.len() <= n,
{
    let t = q.map_values(|x: usize| x as int);
    assert(t.no_duplicates()) by {
        assert forall|a: int, b: int| 0 <= a < t.len() && 0 <= b < t.len() && a != b implies t[a] != t[b] by {
            assert(q[a] != q[b]);
        }
    }
    t.unique_seq_to_set();
    vstd::set_lib::lemma_int_range(0, n as int);
    assert(t.to_set().subset_of(vstd::set_lib::set_int_range(0, n as int))) by {
        assert forall|x: int| t.to_set().contains(x) implies vstd::set_lib::set_int_range(0, n as int).contains(x) by {
            assert(t.contains(x));
            let k = choose|k: int| 0 <= k < t.len() && t[k] == x;
            assert(q[k] < n);
        }
    }
    vstd::set_lib::lemma_len_subset(t.to_set(), vstd::set_lib::set_int_range(0, n as int));
}

/// `t` is `s` after the dependency check: a loaded module with a failing
/// dependency entry reports the first one; a loaded module stays loaded
/// exactly when it has none and no module it depends on was dropped; a
/// module dropped for a dropped dependency names it: the first module, in
/// the order the check drops them, that it depends on.
pub open spec fn validation_outcome(s: Seq<DiscoveredModule>, t: Seq<DiscoveredModule>) -> bool {
    &&& t.len() == s.len()
    &&& forall|i: int| 0 <= i < s.len() ==> same_but_status(#[trigger] s[i], t[i])
    &&& forall|i: int| 0 <= i < s.len() && !(s[i].status is Loaded) ==> (#[trigger] t[i]).status == s[i].status
    &&& forall|i: int| 0 <= i < s.len() && s[i].status is Loaded && #[trigger] first_failure(s, i) is Some
        ==> failure_status(t[i].status, first_failure(s, i)->0)
    &&& forall|u: int, i: int| #[trigger] dep_edge(s, u, i) && !(t[u].status is Loaded) ==> !(t[i].status is Loaded)
    &&& exists|depth: Seq<nat>| depth.len() == s.len() && forall|i: int| 0 <= i < s.len() && s[i].status is Loaded
        && #[trigger] first_failure(s, i) is None && !(t[i].status is Loaded)
        ==> exists|u: int| dropped_for(s, t, u, i, depth)
    &&& names_first_dropped(s, t)
}

/// The index of the last loaded module called `name`.
fn find_loaded(modules: &Vec<DiscoveredModule>, names: &Vec<Vec<char>>, name: &Vec<char>) -> (r: Option<usize>)
    requires
        names@.len() == modules@.len(),
        forall|i: int| 0 <= i < names@.len() ==> (#[trigger] names@[i])@ == modules@[i].name(),
    ensures
        match r {
            Some(j) => lookup_loaded(modules@, name@) == j,
            None => lookup_loaded(modules@, name@) == -1,
        },
{
    proof { lemma_lookup_loaded(modules@, name@); }
    let mut i: usize = names.len();
    while i > 0
        invariant
            i <= names@.len(),
            names@.len() == modules@.len(),
            forall|t: int| 0 <= t < names@.len() ==> (#[trigger] names@[t])@ == modules@[t].name(),
            forall|t: int| i <= t < modules@.len() ==> !(modules@[t].status is Loaded && modules@[t].name() == name@),
            -1 <= lookup_loaded(modules@, name@) < modules@.len(),
            lookup_loaded(modules@, name@) >= 0 ==> modules@[lookup_loaded(modules@, name@)].name() == name@
                && modules@[lookup_loaded(modules@, name@)].status is Loaded,
            forall|t: int| lookup_loaded(modules@, name@) < t < modules@.len() ==> !(modules@[t].status is Loaded && modules@[t].name() == name@),
        decreases i,
    {
        if modules[i - 1].status.is_loaded() && chars_equal(&names[i - 1], name) {
            return Some(i - 1);
        }
        i -= 1;
    }
    None
}

/// For each module and dependency entry, the loaded module it resolves to.
fn resolve_loaded(modules: &Vec<DiscoveredModule>, names: &Vec<Vec<char>>) -> (targets: Vec<Vec<Option<usize>>>)
    requires
        names@.len() == modules@.len(),
        forall|i: int| 0 <= i < names@.len() ==> (#[trigger] names@[i])@ == modules@[i].name(),
    ensures
        targets@.len() == modules@.len(),
        forall|i: int| 0 <= i < modules@.len() ==> (#[trigger] targets@[i])@.len() == dep_count(modules@[i]),
        forall|i: int, k: int| 0 <= i < modules@.len() && 0 <= k < dep_count(modules@[i]) ==>
            match (#[trigger] targets@[i]@[k]) {
                Some(j) => lookup_loaded(modules@, dep_name(modules@[i], k)) == j,
                None => lookup_loaded(modules@, dep_name(modules@[i], k)) == -1,
            },
{
    let mut targets: Vec<Vec<Option<usize>>> = Vec::new();
    let mut i: usize = 0;
    while i < modules.len()
        invariant
            i <= modules@.len(),
            targets@.len() == i,
            names@.len() == modules@.len(),
            forall|t: int| 0 <= t < names@.len() ==> (#[trigger] names@[t])@ == modules@[t].name(),
            forall|r: int| 0 <= r < i ==> (#[trigger] targets@[r])@.len() == dep_count(modules@[r]),
            forall|r: int, k: int| 0 <= r < i && 0 <= k < dep_count(modules@[r]) ==>
                match (#[trigger] targets@[r]@[k]) {
                    Some(j) => lookup_loaded(modules@, dep_name(modules@[r], k)) == j,
                    None => lookup_loaded(modules@, dep_name(modules@[r], k)) == -1,
                },
        decreases modules.len() - i,
    {
        let deps = &modules[i].manifest.module.deps;
        let mut row: Vec<Option<usize>> = Vec::new();
        let mut k: usize = 0;
        while k < deps.len()
            invariant
                i < modules@.len(),
                deps@ == modules@[i as int].manifest.module.deps@,
                k <= deps@.len(),
                row@.len() == k,
                names@.len() == modules@.len(),
                forall|t: int| 0 <= t < names@.len() ==> (#[trigger] names@[t])@ == modules@[t].name(),
                forall|q: int| 0 <= q < k ==>
                    match (#[trigger] row@[q]) {
                        Some(j) => lookup_loaded(modules@, dep_name(modules@[i as int], q)) == j,
                        None => lookup_loaded(modules@, dep_name(modules@[i as int], q)) == -1,
                    },
            decreases deps.len() - k,
        {
            let name = chars_of(deps[k].name.as_str());
            assert(name@ == dep_name(modules@[i as int], k as int));
            row.push(find_loaded(modules, names, &name));
            k += 1;
        }
        targets.push(row);
        i += 1;
    }
    targets
}

/// Whether `row` holds `x`.
fn row_holds(row: &Vec<Option<usize>>, x: usize) -> (r: bool)
    ensures
        r == (exists|k: int| 0 <= k < row@.len() && row@[k] == Some(x)),
{
    let mut k: usize = 0;
    while k < row.len()
        invariant
            k <= row@.len(),
            forall|q: int| 0 <= q < k ==> row@[q] != Some(x),
        decreases row.len() - k,
    {
        if let Some(y) = row[k] {
            if y == x {
                return true;
            }
        }
        k += 1;
    }
    false
}

/// The loaded modules below `hi` that depend on `u`, in increasing order.
pub open spec fn dependents_spec(s: Seq<DiscoveredModule>, u: int, hi: int) -> Seq<usize>
    decreases hi,
{
    if hi <= 0 {
        Seq::empty()
    } else if dep_edge(s, u, hi - 1) {
        dependents_spec(s, u, hi - 1).push((hi - 1) as usize)
    } else {
        dependents_spec(s, u, hi - 1)
    }
}

proof fn lemma_dependents_spec(s: Seq<DiscoveredModule>, u: int, hi: int)
    requires
        0 <= hi <= usize::MAX,
    ensures
        forall|t: int| 0 <= t < dependents_spec(s, u, hi).len() ==> #[trigger] dependents_spec(s, u, hi)[t] < hi,
        forall|a: int, b: int| 0 <= a < b < dependents_spec(s, u, hi).len() ==> dependents_spec(s, u, hi)[a] < dependents_spec(s, u, hi)[b],
        dependents_spec(s, u, hi).no_duplicates(),
    decreases hi,
{
    if hi > 0 {
        lemma_dependents_spec(s, u, hi - 1);
        let r = dependents_spec(s, u, hi - 1);
        if dep_edge(s, u, hi - 1) {
            let q = r.push((hi - 1) as usize);
            assert forall|a: int, b: int| 0 <= a < b < q.len() implies q[a] < q[b] by {
                if b < r.len() {
                    assert(q[a] == r[a] && q[b] == r[b]);
                } else {
                    assert(q[a] == r[a]);
                }
            }
        }
        let q = dependents_spec(s, u, hi);
        assert forall|a: int, b: int| 0 <= a < q.len() && 0 <= b < q.len() && a != b implies q[a] != q[b] by {
            if a < b {
                assert(q[a] < q[b]);
            } else {
                assert(q[b] < q[a]);
            }
        }
    }
}

/// For each module, the loaded modules that depend on it.
fn dependents_of(modules: &Vec<DiscoveredModule>, targets: &Vec<Vec<Option<usize>>>) -> (dependents: Vec<Vec<usize>>)
    requires
        targets@.len() == modules@.len(),
        forall|i: int| 0 <= i < modules@.len() ==> (#[trigger] targets@[i])@.len() == dep_count(modules@[i]),
        forall|i: int, k: int| 0 <= i < modules@.len() && 0 <= k < dep_count(modules@[i]) ==>
            match (#[trigger] targets@[i]@[k]) {
                Some(j) => lookup_loaded(modules@, dep_name(modules@[i], k)) == j,
                None => lookup_loaded(modules@, dep_name(modules@[i], k)) == -1,
            },
    ensures
        dependents@.len() == modules@.len(),
        forall|u: int, v: usize| 0 <= u < modules@.len() ==>
            ((#[trigger] dependents@[u]@.contains(v)) <==> dep_edge(modules@, u, v as int)),
        forall|u: int, t: int| 0 <= u < modules@.len() && 0 <= t < dependents@[u]@.len() ==>
            (#[trigger] dependents@[u]@[t]) < modules@.len(),
        forall|u: int| 0 <= u < modules@.len() ==> (#[trigger] dependents@[u])@ == dependents_spec(modules@, u, modules@.len() as int),
{
    let n = modules.len();
    let mut dependents: Vec<Vec<usize>> = Vec::new();
    let mut u: usize = 0;
    while u < n
        invariant
            n == modules@.len(),
            targets@.len() == n,
            forall|i: int| 0 <= i < n ==> (#[trigger] targets@[i])@.len() == dep_count(modules@[i]),
            forall|i: int, k: int| 0 <= i < n && 0 <= k < dep_count(modules@[i]) ==>
                match (#[trigger] targets@[i]@[k]) {
                    Some(j) => lookup_loaded(modules@, dep_name(modules@[i], k)) == j,
                    None => lookup_loaded(modules@, dep_name(modules@[i], k)) == -1,
                },
            u <= n,
            dependents@.len() == u,
            forall|w: int, v: usize| 0 <= w < u ==>
                ((#[trigger] dependents@[w]@.contains(v)) <==> dep_edge(modules@, w, v as int)),
            forall|w: int, t: int| 0 <= w < u && 0 <= t < dependents@[w]@.len() ==> (#[trigger] dependents@[w]@[t]) < n,
            forall|w: int| 0 <= w < u ==> (#[trigger] dependents@[w])@ == dependents_spec(modules@, w, n as int),
        decreases n - u,
    {
        let mut row: Vec<usize> = Vec::new();
        let mut v: usize = 0;
        while v < n
            invariant
                n == modules@.len(),
                targets@.len() == n,
                forall|i: int| 0 <= i < n ==> (#[trigger] targets@[i])@.len() == dep_count(modules@[i]),
                forall|i: int, k: int| 0 <= i < n && 0 <= k < dep_count(modules@[i]) ==>
                    match (#[trigger] targets@[i]@[k]) {
                        Some(j) => lookup_loaded(modules@, dep_name(modules@[i], k)) == j,
                        None => lookup_loaded(modules@, dep_name(modules@[i], k)) == -1,
                    },
                u < n,
                v <= n,
                forall|x: usize| (#[trigger] row@.contains(x)) <==> (x < v && dep_edge(modules@, u as int, x as int)),
                forall|t: int| 0 <= t < row@.len() ==> (#[trigger] row@[t]) < v,
                row@ == dependents_spec(modules@, u as int, v as int),
            decreases n - v,
        {
            let ghost old_row = row@;
            let edge = modules[v].status.is_loaded() && row_holds(&targets[v], u);
            proof {
                let row_v = targets@[v as int]@;
                if edge {
                    let k = choose|k: int| 0 <= k < row_v.len() && row_v[k] == Some(u);
                    assert(targets@[v as int]@[k] == Some(u));
                    assert(lookup_loaded(modules@, dep_name(modules@[v as int], k)) == u);
                    assert(dep_edge(modules@, u as int, v as int));
                }
                if dep_edge(modules@, u as int, v as int) {
                    let k = choose|k: int| 0 <= k < dep_count(modules@[v as int]) && #[trigger] lookup_loaded(modules@, dep_name(modules@[v as int], k)) == u;
                    lemma_lookup_loaded(modules@, dep_name(modules@[v as int], k));
                    match targets@[v as int]@[k] {
                        Some(j) => { assert(j == u); },
                        None => {},
                    }
                    assert(row_v[k] == Some(u));
                }
            }
            if edge {
                row.push(v);
            }
            assert(edge == dep_edge(modules@, u as int, v as int));
            assert(row@ == dependents_spec(modules@, u as int, v + 1));
            assert forall|x: usize| (#[trigger] row@.contains(x)) <==> (x < v + 1 && dep_edge(modules@, u as int, x as int)) by {
                if row@.contains(x) && !old_row.contains(x) {
                    assert(row@.last() == x);
                }
                if x < v && dep_edge(modules@, u as int, x as int) {
                    assert(old_row.contains(x));
                    let t = choose|t: int| 0 <= t < old_row.len() && old_row[t] == x;
                    assert(row@[t] == x);
                }
                if x == v && edge {
                    assert(row@.last() == x);
                }
            }
            v += 1;
        }
        let ghost finished = row@;
        dependents.push(row);
        assert(dependents@[u as int]@ == finished);
        u += 1;
    }
    dependents
}

proof fn lemma_first_failure_step(s: Seq<DiscoveredModule>, i: int, k: int)
    requires
        0 <= k < dep_count(s[i]),
        dep_failure(s, i, k) is None,
    ensures
        first_failure_from(s, i, k) == first_failure_from(s, i, k + 1),
{
}

/// The status for the first failing dependency entry of module `i`, if any.
fn direct_failure(
    modules: &Vec<DiscoveredModule>,
    targets: &Vec<Vec<Option<usize>>>,
    i: usize,
    Ghost(s): Ghost<Seq<DiscoveredModule>>,
) -> (r: Option<ModuleStatus>)
    requires
        i < modules@.len(),
        s.len() == modules@.len(),
        forall|j: int| 0 <= j < s.len() ==> same_but_status(#[trigger] s[j], modules@[j]),
        targets@.len() == s.len(),
        forall|j: int| 0 <= j < s.len() ==> (#[trigger] targets@[j])@.len() == dep_count(s[j]),
        forall|j: int, k: int| 0 <= j < s.len() && 0 <= k < dep_count(s[j]) ==>
            match (#[trigger] targets@[j]@[k]) {
                Some(x) => lookup_loaded(s, dep_name(s[j], k)) == x,
                None => lookup_loaded(s, dep_name(s[j], k)) == -1,
            },
    ensures
        match r {
            None => first_failure(s, i as int) is None,
            Some(st) => first_failure(s, i as int) is Some && failure_status(st, first_failure(s, i as int)->0),
        },
{
    assert(same_but_status(s[i as int], modules@[i as int]));
    let deps = &modules[i].manifest.module.deps;
    let row = &targets[i];
    let mut k: usize = 0;
    while k < deps.len()
        invariant
            i < modules@.len(),
            s.len() == modules@.len(),
            forall|j: int| 0 <= j < s.len() ==> same_but_status(#[trigger] s[j], modules@[j]),
            deps@ == s[i as int].manifest.module.deps@,
            row@ == targets@[i as int]@,
            row@.len() == deps@.len(),
            forall|q: int| 0 <= q < deps@.len() ==>
                match (#[trigger] row@[q]) {
                    Some(x) => lookup_loaded(s, dep_name(s[i as int], q)) == x,
                    None => lookup_loaded(s, dep_name(s[i as int], q)) == -1,
                },
            k <= deps@.len(),
            first_failure(s, i as int) == first_failure_from(s, i as int, k as int),
        decreases deps.len() - k,
    {
        let dep = &deps[k];
        assert(dep.name@ == dep_name(s[i as int], k as int));
        proof { lemma_lookup_loaded(s, dep.name@); }
        match row[k] {
            None => {
                let mut name = String::new();
                push_str(&mut name, dep.name.as_str());
                return Some(ModuleStatus::SkippedMissingDep(name));
            },
            Some(j) => {
                assert(same_but_status(s[j as int], modules@[j as int]));
                match &dep.version {
                    None => {},
                    Some(c) => {
                        match DependencyValidator::satisfies(modules[j].manifest.module.version.as_str(), c.as_str()) {
                            Ok(ok) => {
                                if !ok {
                                    let mut msg = String::new();
                                    push_str(&mut msg, dep.name.as_str());
                                    push_str(&mut msg, "@");
                                    push_str(&mut msg, c.as_str());
                                    return Some(ModuleStatus::SkippedMissingDep(msg));
                                }
                            },
                            Err(e) => {
                                let mut msg = String::new();
                                push_str(&mut msg, "dep '");
                                push_str(&mut msg, dep.name.as_str());
                                push_str(&mut msg, "': ");
                                push_str(&mut msg, e.as_str());
                                return Some(ModuleStatus::SkippedBadConstraint(msg));
                            },
                        }
                    },
                }
            },
        }
        proof { lemma_first_failure_step(s, i as int, k as int); }
        k += 1;
    }
    None
}

/// Checks dependencies.
pub struct DependencyValidator;

impl DependencyValidator {
    /// Whether the version `version` meets the constraint `constraint`, as
    /// `crate::version::satisfies` answers.
    pub fn satisfies(version: &str, constraint: &str) -> (res: Result<bool, String>)
        ensures
            match res {
                Ok(b) => spec_satisfies(version@, constraint@) == Ok::<bool, Seq<char>>(b),
                Err(e) => spec_satisfies(version@, constraint@) == Err::<bool, Seq<char>>(e@),
            },
    {
        satisfies(version, constraint)
    }

    /// Drops the loaded modules whose dependencies are missing, not loaded,
    /// or of a version their constraint refuses, and then, one after the
    /// other, the loaded modules that depend on a dropped one.
    pub fn validate(modules: &mut Vec<DiscoveredModule>)
        ensures
            validation_outcome(old(modules)@, final(modules)@),
    {
        let ghost s = modules@;
        let n = modules.len();
        let names = module_name_chars(modules);
        let targets = resolve_loaded(modules, &names);
        let dependents = dependents_of(modules, &targets);

        // `dropped[i]`: module `i` is not loaded (any more).
        let mut dropped: Vec<bool> = Vec::new();
        let mut queue: Vec<usize> = Vec::new();
        let mut i: usize = 0;
        while i < n
            invariant
                n == s.len(),
                modules@.len() == n,
                i <= n,
                dropped@.len() == i,
                forall|j: int| 0 <= j < n ==> same_but_status(#[trigger] s[j], modules@[j]),
                forall|j: int| i <= j < n ==> (#[trigger] modules@[j]).status == s[j].status,
                targets@.len() == s.len(),
                forall|j: int| 0 <= j < s.len() ==> (#[trigger] targets@[j])@.len() == dep_count(s[j]),
                forall|j: int, k: int| 0 <= j < s.len() && 0 <= k < dep_count(s[j]) ==>
                    match (#[trigger] targets@[j]@[k]) {
                        Some(x) => lookup_loaded(s, dep_name(s[j], k)) == x,
                        None => lookup_loaded(s, dep_name(s[j], k)) == -1,
                    },
                forall|j: int| 0 <= j < i ==> (#[trigger] dropped@[j]) == !(modules@[j].status is Loaded),
                forall|j: int| 0 <= j < i && !(s[j].status is Loaded) ==> (#[trigger] modules@[j]).status == s[j].status,
                forall|j: int| 0 <= j < i && s[j].status is Loaded && #[trigger] first_failure(s, j) is Some
                    ==> failure_status(modules@[j].status, first_failure(s, j)->0),
                forall|j: int| 0 <= j < i && s[j].status is Loaded && #[trigger] first_failure(s, j) is None
                    ==> modules@[j].status is Loaded,
                forall|t: int| 0 <= t < queue@.len() ==> (#[trigger] queue@[t]) < i && s[queue@[t] as int].status is Loaded,
                forall|t: int| 0 <= t < queue@.len() ==> dropped@[#[trigger] queue@[t] as int],
                forall|j: int| 0 <= j < i && s[j].status is Loaded && #[trigger] dropped@[j] ==> queue@.contains(j as usize),
                queue@ == direct_drops(s, i as int),
                queue@.no_duplicates(),
            decreases n - i,
        {
            let ghost queue_before = queue@;
            let mut drop = !modules[i].status.is_loaded();
            if !drop {
                match direct_failure(modules, &targets, i, Ghost(s)) {
                    Some(st) => {
                        modules[i].status = st;
                        queue.push(i);
                        drop = true;
                    },
                    None => {},
                }
            }
            dropped.push(drop);
            proof {
                assert(same_but_status(s[i as int], modules@[i as int]));
                assert(queue@ == direct_drops(s, i + 1));
                assert forall|a: int, b: int| 0 <= a < queue@.len() && 0 <= b < queue@.len() && a != b implies queue@[a] != queue@[b] by {
                    if a < queue_before.len() && b < queue_before.len() {
                        assert(queue_before[a] != queue_before[b]);
                    } else if a < queue_before.len() {
                        assert(queue@[a] == queue_before[a] && queue_before[a] < i);
                    } else if b < queue_before.len() {
                        assert(queue@[b] == queue_before[b] && queue_before[b] < i);
                    }
                }
                assert forall|j: int| 0 <= j < i + 1 && s[j].status is Loaded && #[trigger] dropped@[j] implies queue@.contains(j as usize) by {
                    if j == i {
                        assert(queue@.last() == i);
                    } else {
                        assert(queue_before.contains(j as usize));
                        let t = choose|t: int| 0 <= t < queue_before.len() && #[trigger] queue_before[t] == j as usize;
                        assert(queue@[t] == j);
                    }
                }
            }
            i += 1;
        }

        assert(queue@ == direct_drops(s, s.len() as int));
        let ghost mut depth: Seq<nat> = Seq::new(n as nat, |j: int| 0nat);
        let mut head: usize = 0;
        while head < queue.len()
            invariant
                n == s.len(),
                modules@.len() == n,
                dropped@.len() == n,
                depth.len() == n,
                head <= queue@.len(),
                forall|j: int| 0 <= j < n ==> same_but_status(#[trigger] s[j], modules@[j]),
                forall|j: int| 0 <= j < n ==> (#[trigger] dropped@[j]) == !(modules@[j].status is Loaded),
                forall|j: int| 0 <= j < n && !(s[j].status is Loaded) ==> (#[trigger] modules@[j]).status == s[j].status,
                forall|j: int| 0 <= j < n && s[j].status is Loaded && #[trigger] first_failure(s, j) is Some
                    ==> failure_status(modules@[j].status, first_failure(s, j)->0),
                forall|j: int| 0 <= j < n && s[j].status is Loaded && #[trigger] first_failure(s, j) is None
                    && !(modules@[j].status is Loaded) ==> exists|u: int| dropped_for(s, modules@, u, j, depth),
                forall|t: int| 0 <= t < queue@.len() ==> (#[trigger] queue@[t]) < n && s[queue@[t] as int].status is Loaded,
                forall|t: int| 0 <= t < queue@.len() ==> dropped@[#[trigger] queue@[t] as int],
                forall|j: int| 0 <= j < n && s[j].status is Loaded && #[trigger] dropped@[j] ==> queue@.contains(j as usize),
                forall|h: int, v: int| 0 <= h < head && #[trigger] dep_edge(s, queue@[h] as int, v) ==> dropped@[v],
                names@.len() == n,
                forall|j: int| 0 <= j < n ==> (#[trigger] names@[j])@ == s[j].name(),
                dependents@.len() == n,
                forall|u: int, v: usize| 0 <= u < n ==> ((#[trigger] dependents@[u]@.contains(v)) <==> dep_edge(s, u, v as int)),
                forall|u: int, t: int| 0 <= u < n && 0 <= t < dependents@[u]@.len() ==> (#[trigger] dependents@[u]@[t]) < n,
                forall|w: int| 0 <= w < n ==> (#[trigger] dependents@[w])@ == dependents_spec(s, w, n as int),
                queue@.no_duplicates(),
                drop_queue(s, queue@, head as nat, (n + 1 - head) as nat) == dropped_order(s),
                forall|v: int| 0 <= v < n && s[v].status is Loaded && #[trigger] first_failure(s, v) is None && dropped@[v] ==> {
                    let h = first_edge_from(s, queue@, v, 0);
                    &&& 0 <= h < queue@.len()
                    &&& modules@[v].status matches ModuleStatus::SkippedMissingDep(nm) && nm@ == s[queue@[h] as int].name()
                },
            decreases 2 * count_unplaced(dropped@) + queue@.len() - head,
        {
            let u = queue[head];
            let ghost qs = queue@;
            proof {
                lemma_short_unique(qs, n as nat);
                lemma_dependents_spec(s, u as int, n as int);
            }
            let ghost q0 = queue@.len();
            let ghost c0 = count_unplaced(dropped@);
            let row = &dependents[u];
            let mut t: usize = 0;
            while t < row.len()
                invariant
                    n == s.len(),
                    u < n,
                    s[u as int].status is Loaded,
                    dropped@[u as int],
                    modules@.len() == n,
                    dropped@.len() == n,
                    depth.len() == n,
                    head < queue@.len(),
                    queue@[head as int] == u,
                    q0 <= queue@.len(),
                    2 * count_unplaced(dropped@) + queue@.len() <= 2 * c0 + q0,
                    row@ == dependents@[u as int]@,
                    t <= row@.len(),
                    forall|x: int| 0 <= x < t ==> dropped@[#[trigger] row@[x] as int],
                    forall|j: int| 0 <= j < n ==> same_but_status(#[trigger] s[j], modules@[j]),
                    forall|j: int| 0 <= j < n ==> (#[trigger] dropped@[j]) == !(modules@[j].status is Loaded),
                    forall|j: int| 0 <= j < n && !(s[j].status is Loaded) ==> (#[trigger] modules@[j]).status == s[j].status,
                    forall|j: int| 0 <= j < n && s[j].status is Loaded && #[trigger] first_failure(s, j) is Some
                        ==> failure_status(modules@[j].status, first_failure(s, j)->0),
                    forall|j: int| 0 <= j < n && s[j].status is Loaded && #[trigger] first_failure(s, j) is None
                        && !(modules@[j].status is Loaded) ==> exists|w: int| dropped_for(s, modules@, w, j, depth),
                    forall|x: int| 0 <= x < queue@.len() ==> (#[trigger] queue@[x]) < n && s[queue@[x] as int].status is Loaded,
                    forall|x: int| 0 <= x < queue@.len() ==> dropped@[#[trigger] queue@[x] as int],
                    forall|j: int| 0 <= j < n && s[j].status is Loaded && #[trigger] dropped@[j] ==> queue@.contains(j as usize),
                    forall|h: int, v: int| 0 <= h < head && #[trigger] dep_edge(s, queue@[h] as int, v) ==> dropped@[v],
                    names@.len() == n,
                    forall|j: int| 0 <= j < n ==> (#[trigger] names@[j])@ == s[j].name(),
                    dependents@.len() == n,
                    forall|w: int, v: usize| 0 <= w < n ==> ((#[trigger] dependents@[w]@.contains(v)) <==> dep_edge(s, w, v as int)),
                    forall|w: int, x: int| 0 <= w < n && 0 <= x < dependents@[w]@.len() ==> (#[trigger] dependents@[w]@[x]) < n,
                    forall|w: int| 0 <= w < n ==> (#[trigger] dependents@[w])@ == dependents_spec(s, w, n as int),
                    row@ == dependents_spec(s, u as int, n as int),
                    row@.no_duplicates(),
                    head < qs.len(),
                    qs[head as int] == u,
                    queue@ == qs + fresh_of(row@.take(t as int), qs),
                    queue@.no_duplicates(),
                    drop_queue(s, qs, head as nat, (n + 1 - head) as nat) == dropped_order(s),
                    forall|v: int| 0 <= v < n && s[v].status is Loaded && #[trigger] first_failure(s, v) is None && dropped@[v] ==> {
                        let h = first_edge_from(s, queue@, v, 0);
                        &&& 0 <= h < queue@.len()
                        &&& modules@[v].status matches ModuleStatus::SkippedMissingDep(nm) && nm@ == s[queue@[h] as int].name()
                    },
                decreases row.len() - t,
            {
                let v = row[t];
                assert(v < n) by {
                    assert(dependents@[u as int]@[t as int] < n);
                }
                let ghost was_dropped = dropped@[v as int];
                if !dropped[v] {
                    let ghost before = modules@;
                    let ghost dropped_before = dropped@;
                    let ghost depth_before = depth;
                    let ghost queue_before = queue@;
                    assert(dependents@[u as int]@.contains(v));
                    assert(dep_edge(s, u as int, v as int));
                    let name = string_from_chars(&names[u]);
                    modules[v].status = ModuleStatus::SkippedMissingDep(name);
                    dropped.set(v, true);
                    queue.push(v);
                    proof {
                        assert(row@[t as int] == v);
                        assert(!queue_before.contains(v)) by {
                            if queue_before.contains(v) {
                                let x = choose|x: int| 0 <= x < queue_before.len() && queue_before[x] == v;
                                assert(dropped_before[queue_before[x] as int]);
                            }
                        }
                        assert(!qs.contains(v)) by {
                            if qs.contains(v) {
                                let x = choose|x: int| 0 <= x < qs.len() && qs[x] == v;
                                assert(queue_before[x] == v);
                            }
                        }
                        assert(row@.take(t + 1).drop_last() == row@.take(t as int));
                        assert(row@.take(t + 1).last() == v);
                        assert(fresh_of(row@.take(t + 1), qs) == fresh_of(row@.take(t as int), qs).push(v));
                        assert(queue@ =~= qs + fresh_of(row@.take(t + 1), qs));
                        assert(queue@.no_duplicates()) by {
                            assert forall|a: int, b: int| 0 <= a < queue@.len() && 0 <= b < queue@.len() && a != b implies queue@[a] != queue@[b] by {
                                if a < queue_before.len() && b < queue_before.len() {
                                    assert(queue_before[a] != queue_before[b]);
                                } else if a < queue_before.len() {
                                    assert(queue@[a] == queue_before[a]);
                                } else if b < queue_before.len() {
                                    assert(queue@[b] == queue_before[b]);
                                }
                            }
                        }
                        assert forall|h: int| 0 <= h < head implies !dep_edge(s, #[trigger] queue@[h] as int, v as int) by {
                            assert(queue@[h] == queue_before[h]);
                        }
                        assert(queue@[head as int] == u);
                        lemma_first_edge_at(s, queue@, v as int, 0, head as int);
                        assert forall|w: int| 0 <= w < n && s[w].status is Loaded && #[trigger] first_failure(s, w) is None && dropped@[w] implies {
                            let h = first_edge_from(s, queue@, w, 0);
                            &&& 0 <= h < queue@.len()
                            &&& modules@[w].status matches ModuleStatus::SkippedMissingDep(nm) && nm@ == s[queue@[h] as int].name()
                        } by {
                            if w != v {
                                assert(dropped_before[w]);
                                assert(before[w] == modules@[w]);
                                lemma_first_edge_push(s, queue_before, v, w, 0);
                                assert(queue@ == queue_before.push(v));
                                let h = first_edge_from(s, queue_before, w, 0);
                                assert(queue@[h] == queue_before[h]);
                            } else {
                                assert(names@[u as int]@ == s[u as int].name());
                            }
                        }
                    }
                    proof {
                        lemma_count_unplaced_update(dropped_before, v as int);
                        depth = depth.update(v as int, depth[u as int] + 1);
                        assert(dropped_for(s, modules@, u as int, v as int, depth));
                        assert forall|j: int| 0 <= j < n && s[j].status is Loaded && #[trigger] first_failure(s, j) is None
                            && !(modules@[j].status is Loaded) implies exists|w: int| dropped_for(s, modules@, w, j, depth) by {
                            if j != v {
                                assert(before[j] == modules@[j]);
                                let w = choose|w: int| dropped_for(s, before, w, j, depth_before);
                                assert(w != v);
                                assert(modules@[w] == before[w]);
                                assert(depth[w] == depth_before[w]);
                                assert(depth[j] == depth_before[j]);
                                assert(dropped_for(s, modules@, w, j, depth));
                            }
                        }
                        assert forall|j: int| 0 <= j < n && s[j].status is Loaded && #[trigger] first_failure(s, j) is Some
                            implies failure_status(modules@[j].status, first_failure(s, j)->0) by {
                            if j == v {
                                assert(failure_status(before[j].status, first_failure(s, j)->0));
                            } else {
                                assert(before[j] == modules@[j]);
                            }
                        }
                        assert forall|j: int| 0 <= j < n && s[j].status is Loaded && #[trigger] dropped@[j] implies queue@.contains(j as usize) by {
                            if j == v {
                                assert(queue@.last() == v);
                            } else {
                                assert(dropped_before[j]);
                                assert(queue_before.contains(j as usize));
                                let x = choose|x: int| 0 <= x < queue_before.len() && #[trigger] queue_before[x] == j as usize;
                                assert(queue@[x] == j);
                            }
                        }
                        assert forall|j: int| 0 <= j < n implies same_but_status(#[trigger] s[j], modules@[j]) by {
                            if j != v {
                                assert(before[j] == modules@[j]);
                            }
                        }
                    }
                }
                proof {
                    if was_dropped {
                        assert(row@[t as int] == v);
                        assert(dependents@[u as int]@.contains(v));
                        assert(dep_edge(s, u as int, v as int));
                        assert(queue@.contains(v));
                        let x = choose|x: int| 0 <= x < queue@.len() && queue@[x] == v;
                        if x >= qs.len() {
                            assert(fresh_of(row@.take(t as int), qs)[x - qs.len()] == v);
                            lemma_fresh_within(row@.take(t as int), qs, v);
                            let k = choose|k: int| 0 <= k < row@.take(t as int).len() && row@.take(t as int)[k] == v;
                            assert(row@[k] == row@[t as int]);
                        }
                        assert(qs[x] == v);
                        assert(qs.contains(v));
                        assert(row@.take(t + 1).drop_last() == row@.take(t as int));
                        assert(row@.take(t + 1).last() == v);
                        assert(fresh_of(row@.take(t + 1), qs) == fresh_of(row@.take(t as int), qs));
                    }
                }
                t += 1;
            }
            proof {
                assert(row@.take(row@.len() as int) == row@);
                assert(queue@ == qs + fresh_of(dependents_spec(s, qs[head as int] as int, n as int), qs));
                assert(qs.len() <= n);
                assert(drop_queue(s, qs, head as nat, (n + 1 - head) as nat)
                    == drop_queue(s, queue@, (head + 1) as nat, (n + 1 - (head + 1)) as nat));
                assert forall|h: int, v: int| 0 <= h < head + 1 && #[trigger] dep_edge(s, queue@[h] as int, v) implies dropped@[v] by {
                    if h == head {
                        assert(dependents@[u as int]@.contains(v as usize));
                        let x = choose|x: int| 0 <= x < row@.len() && row@[x] == v as usize;
                        assert(dropped@[row@[x] as int]);
                    }
                }
            }
            head += 1;
        }
        proof {
            let t = modules@;
            assert forall|u: int, i: int| #[trigger] dep_edge(s, u, i) && !(t[u].status is Loaded) implies !(t[i].status is Loaded) by {
                let k = choose|k: int| 0 <= k < dep_count(s[i]) && #[trigger] lookup_loaded(s, dep_name(s[i], k)) == u;
                lemma_lookup_loaded(s, dep_name(s[i], k));
                assert(dropped@[u]);
                assert(queue@.contains(u as usize));
                let h = choose|h: int| 0 <= h < queue@.len() && queue@[h] == u as usize;
                assert(dep_edge(s, queue@[h] as int, i));
            }
            assert forall|i: int| 0 <= i < s.len() && !(s[i].status is Loaded) implies (#[trigger] t[i]).status == s[i].status by {
            }
            assert(exists|depth: Seq<nat>| depth.len() == s.len() && forall|i: int| 0 <= i < s.len() && s[i].status is Loaded
                && #[trigger] first_failure(s, i) is None && !(t[i].status is Loaded)
                ==> exists|u: int| dropped_for(s, t, u, i, depth));
            assert(queue@ == dropped_order(s));
            assert(names_first_dropped(s, t));
        }
    }
}

} // verus!

verus! {

/// Whether `cmd` is among the commands found on the machine.
pub open spec fn cmd_found(available: Seq<String>, cmd: Seq<char>) -> bool {
    exists|j: int| 0 <= j < available.len() && (#[trigger] available[j])@ == cmd
}

/// The first entry of `requires_cmd`, from `k` on, that was not found, or -1.
pub open spec fn first_missing_from(m: DiscoveredModule, available: Seq<String>, k: int) -> int
    decreases m.manifest.module.requires_cmd@.len() - k,
{
    if k < 0 || k >= m.manifest.module.requires_cmd@.len() {
        -1
    } else if !cmd_found(available, m.manifest.module.requires_cmd@[k]@) {
        k
    } else {
        first_missing_from(m, available, k + 1)
    }
}

/// The first entry of `requires_cmd` that was not found, or -1.
pub open spec fn first_missing(m: DiscoveredModule, available: Seq<String>) -> int {
    first_missing_from(m, available, 0)
}

/// `new` is `old` after the `requires_cmd` check: a loaded module with a
/// command that was not found reports the first such command.
pub open spec fn cmds_checked(old: DiscoveredModule, new: DiscoveredModule, available: Seq<String>) -> bool {
    &&& same_but_status(old, new)
    &&& if old.status is Loaded && first_missing(old, available) >= 0 {
        new.status matches ModuleStatus::SkippedMissingCmd(c)
            && c@ == old.manifest.module.requires_cmd@[first_missing(old, available)]@
    } else {
        new.status == old.status
    }
}

/// Whether one of the `requires_any_cmd` entries was found.
pub open spec fn any_found(m: DiscoveredModule, available: Seq<String>) -> bool {
    exists|k: int| 0 <= k < m.manifest.module.requires_any_cmd@.len()
        && cmd_found(available, #[trigger] m.manifest.module.requires_any_cmd@[k]@)
}

/// `new` is `old` after the `requires_any_cmd` check: a loaded module that
/// lists such commands and has none of them reports the whole list.
pub open spec fn any_cmds_checked(old: DiscoveredModule, new: DiscoveredModule, available: Seq<String>) -> bool {
    &&& same_but_status(old, new)
    &&& if old.status is Loaded && old.manifest.module.requires_any_cmd@.len() > 0 && !any_found(old, available) {
        new.status matches ModuleStatus::SkippedMissingAnyCmd(v) && v@ == old.manifest.module.requires_any_cmd@
    } else {
        new.status == old.status
    }
}

/// `new` is `old` after the `requires_cmd` check.
pub open spec fn cmds_applied(old: Seq<DiscoveredModule>, new: Seq<DiscoveredModule>, available: Seq<String>) -> bool {
    &&& new.len() == old.len()
    &&& forall|i: int| 0 <= i < old.len() ==> cmds_checked(#[trigger] old[i], new[i], available)
}

/// `new` is `old` after the `requires_any_cmd` check.
pub open spec fn any_cmds_applied(old: Seq<DiscoveredModule>, new: Seq<DiscoveredModule>, available: Seq<String>) -> bool {
    &&& new.len() == old.len()
    &&& forall|i: int| 0 <= i < old.len() ==> any_cmds_checked(#[trigger] old[i], new[i], available)
}

/// Whether `cmd` is in `available`.
fn has_cmd(available: &Vec<String>, cmd: &str) -> (r: bool)
    ensures
        r == cmd_found(available@, cmd@),
{
    let mut j: usize = 0;
    while j < available.len()
        invariant
            j <= available@.len(),
            forall|t: int| 0 <= t < j ==> (#[trigger] available@[t])@ != cmd@,
        decreases available.len() - j,
    {
        if crate::text::str_equal(available[j].as_str(), cmd) {
            return true;
        }
        j += 1;
    }
    false
}

/// Finds the first entry of `cmds` that is not in `available`.
fn first_missing_cmd(cmds: &Vec<String>, available: &Vec<String>, Ghost(m): Ghost<DiscoveredModule>) -> (r: Option<usize>)
    requires
        cmds@ == m.manifest.module.requires_cmd@,
    ensures
        match r {
            Some(k) => first_missing(m, available@) == k && k < cmds@.len(),
            None => first_missing(m, available@) == -1,
        },
{
    let mut k: usize = 0;
    while k < cmds.len()
        invariant
            cmds@ == m.manifest.module.requires_cmd@,
            k <= cmds@.len(),
            first_missing(m, available@) == first_missing_from(m, available@, k as int),
        decreases cmds.len() - k,
    {
        if !has_cmd(available, cmds[k].as_str()) {
            return Some(k);
        }
        k += 1;
    }
    None
}

/// Whether one of `cmds` is in `available`.
fn any_cmd_found(cmds: &Vec<String>, available: &Vec<String>) -> (r: bool)
    ensures
        r == (exists|k: int| 0 <= k < cmds@.len() && cmd_found(available@, #[trigger] cmds@[k]@)),
{
    let mut k: usize = 0;
    while k < cmds.len()
        invariant
            k <= cmds@.len(),
            forall|q: int| 0 <= q < k ==> !cmd_found(available@, #[trigger] cmds@[q]@),
        decreases cmds.len() - k,
    {
        if has_cmd(available, cmds[k].as_str()) {
            return true;
        }
        k += 1;
    }
    false
}

/// Checks the commands that modules need and the completion functions that
/// they declare.
pub struct CommandValidator;

impl CommandValidator {
    /// Drops the loaded modules one of whose `requires_cmd` commands is not
    /// among `available`, the commands found on the machine.
    pub fn cmds(modules: &mut Vec<DiscoveredModule>, available: &Vec<String>)
        ensures
            cmds_applied(old(modules)@, final(modules)@, available@),
    {
        let ghost s = modules@;
        let mut i: usize = 0;
        while i < modules.len()
            invariant
                modules@.len() == s.len(),
                i <= s.len(),
                forall|j: int| 0 <= j < i ==> cmds_checked(#[trigger] s[j], modules@[j], available@),
                forall|j: int| i <= j < s.len() ==> (#[trigger] modules@[j]) == s[j],
            decreases s.len() - i,
        {
            if modules[i].status.is_loaded() {
                let found = first_missing_cmd(&modules[i].manifest.module.requires_cmd, available, Ghost(s[i as int]));
                if let Some(k) = found {
                    let cmd = string_from_chars(&chars_of(modules[i].manifest.module.requires_cmd[k].as_str()));
                    modules[i].status = ModuleStatus::SkippedMissingCmd(cmd);
                }
            }
            assert(cmds_checked(s[i as int], modules@[i as int], available@));
            i += 1;
        }
    }

    /// Drops the loaded modules that list `requires_any_cmd` commands none
    /// of which is among `available`.
    pub fn any_cmds(modules: &mut Vec<DiscoveredModule>, available: &Vec<String>)
        ensures
            any_cmds_applied(old(modules)@, final(modules)@, available@),
    {
        let ghost s = modules@;
        let mut i: usize = 0;
        while i < modules.len()
            invariant
                modules@.len() == s.len(),
                i <= s.len(),
                forall|j: int| 0 <= j < i ==> any_cmds_checked(#[trigger] s[j], modules@[j], available@),
                forall|j: int| i <= j < s.len() ==> (#[trigger] modules@[j]) == s[j],
            decreases s.len() - i,
        {
            if modules[i].status.is_loaded() {
                let cmds = &modules[i].manifest.module.requires_any_cmd;
                if cmds.len() > 0 && !any_cmd_found(cmds, available) {
                    let copy = crate::text::copy_strings(cmds);
                    modules[i].status = ModuleStatus::SkippedMissingAnyCmd(copy);
                }
            }
            assert(any_cmds_checked(s[i as int], modules@[i as int], available@));
            i += 1;
        }
    }
}

} // verus!

verus! {

/// A line that defines the shell function `name`: after its leading white
/// space it does not begin with `#`, and begins with `name(`, `name (` or
/// `function name`.
pub open spec fn line_defines(line: Seq<char>, name: Seq<char>) -> bool {
    let t = trim_start(line);
    &&& !(t.len() > 0 && t[0] == '#')
    &&& (has_prefix(t, name + "("@) || has_prefix(t, name + " ("@) || has_prefix(t, "function "@ + name))
}

/// One of the lines of `content` defines the shell function `name`.
pub open spec fn defines_function(content: Seq<char>, name: Seq<char>) -> bool {
    exists|l: int| 0 <= l < lines_of(content).len() && line_defines(#[trigger] lines_of(content)[l], name)
}

proof fn lemma_defines_function_split(s: Seq<char>, name: Seq<char>, k: int)
    requires
        0 <= k < s.len(),
        first_index_of(s, '\n') == k,
    ensures
        defines_function(s, name) == (line_defines(strip_cr(s.subrange(0, k)), name)
            || defines_function(s.subrange(k + 1, s.len() as int), name)),
{
    let rest = s.subrange(k + 1, s.len() as int);
    let first = strip_cr(s.subrange(0, k));
    assert(lines_of(s) == seq![first] + lines_of(rest));
    if defines_function(s, name) {
        let l = choose|l: int| 0 <= l < lines_of(s).len() && line_defines(#[trigger] lines_of(s)[l], name);
        if l > 0 {
            assert(lines_of(rest)[l - 1] == lines_of(s)[l]);
        }
    }
    if defines_function(rest, name) {
        let l = choose|l: int| 0 <= l < lines_of(rest).len() && line_defines(#[trigger] lines_of(rest)[l], name);
        assert(lines_of(s)[l + 1] == lines_of(rest)[l]);
    }
    if line_defines(first, name) {
        assert(lines_of(s)[0] == first);
    }
}

proof fn lemma_defines_function_last(s: Seq<char>, name: Seq<char>)
    requires
        s.len() > 0,
        first_index_of(s, '\n') == -1,
    ensures
        defines_function(s, name) == line_defines(s, name),
{
    assert(lines_of(s) == seq![s]);
    if line_defines(s, name) {
        assert(lines_of(s)[0] == s);
    }
}

/// Whether `v[lo..hi]` is a line that defines the function whose name,
/// followed by `(` and ` (`, gives `p1` and `p2`, and which `p3` names
/// after `function `.
fn range_defines(v: &Vec<char>, lo: usize, hi: usize, p1: &Vec<char>, p2: &Vec<char>, p3: &Vec<char>, Ghost(name): Ghost<Seq<char>>) -> (r: bool)
    requires
        lo <= hi <= v.len(),
        p1@ == name + "("@,
        p2@ == name + " ("@,
        p3@ == "function "@ + name,
    ensures
        r == line_defines(v@.subrange(lo as int, hi as int), name),
{
    let ts = skip_spaces(v, lo, hi);
    let t = Ghost(v@.subrange(ts as int, hi as int));
    if ts < hi && v[ts] == '#' {
        assert(t@[0] == v@[ts as int]);
        return false;
    }
    assert(ts < hi ==> t@[0] == v@[ts as int]);
    range_has_prefix(v, ts, hi, p1) || range_has_prefix(v, ts, hi, p2) || range_has_prefix(v, ts, hi, p3)
}

impl CommandValidator {
    /// Whether one of the lines of `content` defines the shell function
    /// `fn_name` (`fn_name() {`, `fn_name () {` or `function fn_name`), not
    /// counting lines commented out with `#`.
    pub fn is_fn(content: &str, fn_name: &str) -> (r: bool)
        ensures
            r == defines_function(content@, fn_name@),
    {
        let v = chars_of(content);
        let mut p1 = chars_of(fn_name);
        push_chars(&mut p1, "(");
        let mut p2 = chars_of(fn_name);
        push_chars(&mut p2, " (");
        let mut p3: Vec<char> = Vec::new();
        push_chars(&mut p3, "function ");
        push_chars(&mut p3, fn_name);
        assert(p3@ == "function "@ + fn_name@);
        let n = v.len();
        let mut pos: usize = 0;
        assert(v@.subrange(0, n as int) == v@);
        while pos < n
            invariant
                pos <= n,
                n == v@.len(),
                v@ == content@,
                p1@ == fn_name@ + "("@,
                p2@ == fn_name@ + " ("@,
                p3@ == "function "@ + fn_name@,
                defines_function(content@, fn_name@) == defines_function(v@.subrange(pos as int, n as int), fn_name@),
            decreases n - pos,
        {
            let ghost rest = v@.subrange(pos as int, n as int);
            let nl = find_from(&v, pos, n, '\n');
            let mut end = nl;
            if nl < n && nl > pos && v[nl - 1] == '\r' {
                end = nl - 1;
            }
            proof {
                if nl < n {
                    lemma_first_index_is(rest, '\n', nl - pos);
                    lemma_defines_function_split(rest, fn_name@, nl - pos);
                    assert(strip_cr(rest.subrange(0, nl - pos)) == v@.subrange(pos as int, end as int));
                    assert(rest.subrange(nl - pos + 1, rest.len() as int) == v@.subrange(nl + 1, n as int));
                } else {
                    lemma_first_index_none(rest, '\n');
                    lemma_defines_function_last(rest, fn_name@);
                }
            }
            if range_defines(&v, pos, end, &p1, &p2, &p3, Ghost(fn_name@)) {
                return true;
            }
            if nl == n {
                return false;
            }
            pos = nl + 1;
        }
        proof {
            assert(lines_of(v@.subrange(pos as int, n as int)).len() == 0);
        }
        false
    }
}

/// Whether one of the lines of `content` defines the shell function
/// `fn_name`; the same test as `CommandValidator::is_fn`.
pub fn is_function_defined(content: &str, fn_name: &str) -> (r: bool)
    ensures
        r == defines_function(content@, fn_name@),
{
    CommandValidator::is_fn(content, fn_name)
}

} // verus!

verus! {

/// The text of the `init.zsh` files of the loaded modules among the first
/// `hi`, one after the other; `contents[i]` holds that of module `i` when it
/// could be read.
pub open spec fn init_text(modules: Seq<DiscoveredModule>, contents: Seq<Option<String>>, hi: int) -> Seq<char>
    decreases hi,
{
    if hi <= 0 {
        Seq::empty()
    } else {
        init_text(modules, contents, hi - 1) + if modules[hi - 1].status is Loaded && contents[hi - 1] is Some {
            contents[hi - 1]->0@
        } else {
            Seq::empty()
        }
    }
}

/// The warning for a completion function that no `init.zsh` defines.
pub open spec fn completion_warning(module: Seq<char>, function: Seq<char>) -> Seq<char> {
    "module '"@ + module + "': completion function '"@ + function
        + "' not found in any init.zsh (if it is defined in a sourced sub-file, this warning can be ignored)"@
}

/// The warnings for the first `hi` completions of a module.
pub open spec fn module_warnings(m: DiscoveredModule, all: Seq<char>, hi: int) -> Seq<Seq<char>>
    decreases hi,
{
    if hi <= 0 {
        Seq::empty()
    } else {
        let prev = module_warnings(m, all, hi - 1);
        let f = m.manifest.api.completions@[hi - 1].1@;
        if defines_function(all, f) {
            prev
        } else {
            prev.push(completion_warning(m.name(), f))
        }
    }
}

/// The warnings for the loaded modules among the first `hi`.
pub open spec fn completion_warnings(modules: Seq<DiscoveredModule>, all: Seq<char>, hi: int) -> Seq<Seq<char>>
    decreases hi,
{
    if hi <= 0 {
        Seq::empty()
    } else {
        completion_warnings(modules, all, hi - 1) + if modules[hi - 1].status is Loaded {
            module_warnings(modules[hi - 1], all, modules[hi - 1].manifest.api.completions@.len() as int)
        } else {
            Seq::empty()
        }
    }
}

/// The views of a list of strings.
pub open spec fn string_views(v: Seq<String>) -> Seq<Seq<char>> {
    v.map_values(|w: String| w@)
}

impl CommandValidator {
    /// The warnings for the completion functions of loaded modules that no
    /// `init.zsh` of a loaded module defines. `contents[i]` is the text of
    /// module `i`'s `init.zsh`, when it could be read.
    pub fn comps(modules: &Vec<DiscoveredModule>, contents: &Vec<Option<String>>) -> (warnings: Vec<String>)
        requires
            contents@.len() == modules@.len(),
        ensures
            string_views(warnings@) == completion_warnings(modules@,
                init_text(modules@, contents@, modules@.len() as int), modules@.len() as int),
    {
        let n = modules.len();
        let mut all = String::new();
        let mut i: usize = 0;
        while i < n
            invariant
                n == modules@.len(),
                contents@.len() == n,
                i <= n,
                all@ == init_text(modules@, contents@, i as int),
            decreases n - i,
        {
            if modules[i].status.is_loaded() {
                if let Some(text) = &contents[i] {
                    push_str(&mut all, text.as_str());
                } else {
                    assert(all@ == all@ + Seq::<char>::empty());
                }
            } else {
                assert(all@ == all@ + Seq::<char>::empty());
            }
            i += 1;
        }
        let ghost text = all@;
        let mut warnings: Vec<String> = Vec::new();
        let mut i: usize = 0;
        while i < n
            invariant
                n == modules@.len(),
                i <= n,
                all@ == text,
                string_views(warnings@) == completion_warnings(modules@, text, i as int),
            decreases n - i,
        {
            let m = &modules[i];
            if m.status.is_loaded() {
                let ghost before = string_views(warnings@);
                let comps = &m.manifest.api.completions;
                let mut k: usize = 0;
                while k < comps.len()
                    invariant
                        i < n,
                        n == modules@.len(),
                        *m == modules@[i as int],
                        comps@ == m.manifest.api.completions@,
                        k <= comps@.len(),
                        all@ == text,
                        string_views(warnings@) == before + module_warnings(*m, text, k as int),
                    decreases comps.len() - k,
                {
                    let f = &comps[k].1;
                    if !CommandValidator::is_fn(all.as_str(), f.as_str()) {
                        let mut w = String::new();
                        push_str(&mut w, "module '");
                        push_str(&mut w, m.manifest.module.name.as_str());
                        push_str(&mut w, "': completion function '");
                        push_str(&mut w, f.as_str());
                        push_str(&mut w, "' not found in any init.zsh (if it is defined in a sourced sub-file, this warning can be ignored)");
                        let ghost prev = warnings@;
                        warnings.push(w);
                        assert(string_views(warnings@) == string_views(prev).push(w@));
                    }
                    k += 1;
                }
            } else {
                assert(string_views(warnings@) == string_views(warnings@) + Seq::<Seq<char>>::empty());
            }
            i += 1;
        }
        warnings
    }
}

} // verus!
