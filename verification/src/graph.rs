//! Load order of the modules: dependencies before dependents, ties broken by
//! directory, prefix and name; modules that wait on a dependency cycle last,
//! those on the cycle marked as such.
use vstd::prelude::*;
use crate::text::{chars_of, chars_equal};
use crate::types::{DiscoveredModule, ModuleStatus, module_names};

verus! {

/// The name of the `k`-th dependency of a module.
pub open spec fn dep_name(m: DiscoveredModule, k: int) -> Seq<char> {
    m.manifest.module.deps@[k].name@
}

/// The number of dependency entries of a module.
pub open spec fn dep_count(m: DiscoveredModule) -> int {
    m.manifest.module.deps@.len() as int
}

/// The index of the last module called `name`, or -1.
pub open spec fn lookup_name(s: Seq<DiscoveredModule>, name: Seq<char>) -> int
    decreases s.len(),
{
    if s.len() == 0 {
        -1
    } else if s.last().name() == name {
        s.len() - 1
    } else {
        lookup_name(s.drop_last(), name)
    }
}

/// Modules whose dependencies take no part in the ordering.
pub open spec fn graph_skips(m: DiscoveredModule) -> bool {
    m.status is FailedManifest || m.status is SkippedCycle
}

/// Module `i` depends on module `j`: one of `i`'s dependency names is the
/// name of `j` (the last module of that name), and `i` takes part in the
/// ordering.
pub open spec fn edge(s: Seq<DiscoveredModule>, j: int, i: int) -> bool {
    &&& 0 <= i < s.len()
    &&& 0 <= j < s.len()
    &&& !graph_skips(s[i])
    &&& exists|k: int| 0 <= k < dep_count(s[i]) && #[trigger] lookup_name(s, dep_name(s[i], k)) == j
}

/// The number of modules below `hi` on which `v` depends and that are not
/// yet placed.
pub open spec fn pending(s: Seq<DiscoveredModule>, placed: Seq<bool>, v: int, hi: int) -> nat
    decreases hi,
{
    if hi <= 0 {
        0
    } else {
        pending(s, placed, v, hi - 1) + if edge(s, hi - 1, v) && !placed[hi - 1] { 1nat } else { 0nat }
    }
}

pub proof fn lemma_lookup_name(s: Seq<DiscoveredModule>, name: Seq<char>)
    ensures
        -1 <= lookup_name(s, name) < s.len(),
        lookup_name(s, name) >= 0 ==> s[lookup_name(s, name)].name() == name,
        forall|j: int| lookup_name(s, name) < j < s.len() ==> s[j].name() != name,
    decreases s.len(),
{
    if s.len() > 0 && s.last().name() != name {
        lemma_lookup_name(s.drop_last(), name);
        assert forall|j: int| lookup_name(s, name) < j < s.len() implies s[j].name() != name by {
            if j < s.len() - 1 {
                assert(s[j] == s.drop_last()[j]);
            }
        }
        if lookup_name(s, name) >= 0 {
            assert(s[lookup_name(s, name)] == s.drop_last()[lookup_name(s, name)]);
        }
    }
}

/// The names of the modules, as characters.
pub(crate) fn module_name_chars(modules: &Vec<DiscoveredModule>) -> (names: Vec<Vec<char>>)
    ensures
        names@.len() == modules@.len(),
        forall|i: int| 0 <= i < names@.len() ==> (#[trigger] names@[i])@ == modules@[i].name(),
{
    let mut names: Vec<Vec<char>> = Vec::new();
    let mut i: usize = 0;
    while i < modules.len()
        invariant
            i <= modules@.len(),
            names@.len() == i,
            forall|t: int| 0 <= t < i ==> (#[trigger] names@[t])@ == modules@[t].name(),
        decreases modules.len() - i,
    {
        names.push(chars_of(modules[i].manifest.module.name.as_str()));
        i += 1;
    }
    names
}

/// The index of the last module called `name`.
fn lookup(modules: &Vec<DiscoveredModule>, names: &Vec<Vec<char>>, name: &Vec<char>) -> (r: Option<usize>)
    requires
        names@.len() == modules@.len(),
        forall|i: int| 0 <= i < names@.len() ==> (#[trigger] names@[i])@ == modules@[i].name(),
    ensures
        match r {
            Some(j) => lookup_name(modules@, name@) == j,
            None => lookup_name(modules@, name@) == -1,
        },
{
    proof { lemma_lookup_name(modules@, name@); }
    let mut i: usize = names.len();
    while i > 0
        invariant
            i <= names@.len(),
            names@.len() == modules@.len(),
            forall|t: int| 0 <= t < names@.len() ==> (#[trigger] names@[t])@ == modules@[t].name(),
            forall|t: int| i <= t < modules@.len() ==> modules@[t].name() != name@,
            -1 <= lookup_name(modules@, name@) < modules@.len(),
            lookup_name(modules@, name@) >= 0 ==> modules@[lookup_name(modules@, name@)].name() == name@,
            forall|t: int| lookup_name(modules@, name@) < t < modules@.len() ==> modules@[t].name() != name@,
        decreases i,
    {
        if chars_equal(&names[i - 1], name) {
            return Some(i - 1);
        }
        i -= 1;
    }
    None
}

/// For each module, the indices that its dependency names resolve to.
fn resolve_dependencies(modules: &Vec<DiscoveredModule>, names: &Vec<Vec<char>>) -> (resolved: Vec<Vec<usize>>)
    requires
        names@.len() == modules@.len(),
        forall|i: int| 0 <= i < names@.len() ==> (#[trigger] names@[i])@ == modules@[i].name(),
    ensures
        resolved@.len() == modules@.len(),
        forall|i: int, j: usize| 0 <= i < modules@.len() ==>
            ((#[trigger] resolved@[i]@.contains(j)) <==> (exists|k: int| 0 <= k < dep_count(modules@[i]) && #[trigger] lookup_name(modules@, dep_name(modules@[i], k)) == j as int)),
{
    let mut resolved: Vec<Vec<usize>> = Vec::new();
    let mut i: usize = 0;
    while i < modules.len()
        invariant
            i <= modules@.len(),
            resolved@.len() == i,
            names@.len() == modules@.len(),
            forall|t: int| 0 <= t < names@.len() ==> (#[trigger] names@[t])@ == modules@[t].name(),
            forall|r: int, j: usize| 0 <= r < i ==>
                ((#[trigger] resolved@[r]@.contains(j)) <==> (exists|k: int| 0 <= k < dep_count(modules@[r]) && #[trigger] lookup_name(modules@, dep_name(modules@[r], k)) == j as int)),
        decreases modules.len() - i,
    {
        let deps = &modules[i].manifest.module.deps;
        let mut row: Vec<usize> = Vec::new();
        let mut k: usize = 0;
        while k < deps.len()
            invariant
                i < modules@.len(),
                deps@ == modules@[i as int].manifest.module.deps@,
                k <= deps@.len(),
                names@.len() == modules@.len(),
                forall|t: int| 0 <= t < names@.len() ==> (#[trigger] names@[t])@ == modules@[t].name(),
                forall|j: usize| (#[trigger] row@.contains(j)) <==> (exists|q: int| 0 <= q < k && #[trigger] lookup_name(modules@, dep_name(modules@[i as int], q)) == j as int),
            decreases deps.len() - k,
        {
            let name = chars_of(deps[k].name.as_str());
            let found = lookup(modules, names, &name);
            assert(name@ == dep_name(modules@[i as int], k as int));
            let ghost old_row = row@;
            if let Some(j) = found {
                row.push(j);
            }
            assert forall|j: usize| (#[trigger] row@.contains(j)) <==> (exists|q: int| 0 <= q < k + 1 && #[trigger] lookup_name(modules@, dep_name(modules@[i as int], q)) == j as int) by {
                if row@.contains(j) {
                    if old_row.contains(j) {
                        let q = choose|q: int| 0 <= q < k && #[trigger] lookup_name(modules@, dep_name(modules@[i as int], q)) == j as int;
                        assert(0 <= q < k + 1 && lookup_name(modules@, dep_name(modules@[i as int], q)) == j as int);
                    } else {
                        assert(row@.last() == j);
                        assert(lookup_name(modules@, dep_name(modules@[i as int], k as int)) == j as int);
                    }
                }
                if exists|q: int| 0 <= q < k + 1 && #[trigger] lookup_name(modules@, dep_name(modules@[i as int], q)) == j as int {
                    let q = choose|q: int| 0 <= q < k + 1 && #[trigger] lookup_name(modules@, dep_name(modules@[i as int], q)) == j as int;
                    if q < k {
                        assert(old_row.contains(j));
                        let t = choose|t: int| 0 <= t < old_row.len() && old_row[t] == j;
                        assert(row@[t] == j);
                    } else {
                        assert(row@.last() == j);
                    }
                }
            }
            k += 1;
        }
        resolved.push(row);
        i += 1;
    }
    resolved
}


/// The modules below `hi` that depend on `j`, in increasing order.
pub open spec fn successors(s: Seq<DiscoveredModule>, j: int, hi: int) -> Seq<usize>
    decreases hi,
{
    if hi <= 0 {
        Seq::empty()
    } else if edge(s, j, hi - 1) {
        successors(s, j, hi - 1).push((hi - 1) as usize)
    } else {
        successors(s, j, hi - 1)
    }
}

pub proof fn lemma_successors(s: Seq<DiscoveredModule>, j: int, hi: int)
    requires
        0 <= hi <= s.len(),
        hi <= usize::MAX,
    ensures
        forall|v: usize| #[trigger] successors(s, j, hi).contains(v) <==> (v < hi && edge(s, j, v as int)),
        forall|a: int, b: int| 0 <= a < b < successors(s, j, hi).len() ==> successors(s, j, hi)[a] < successors(s, j, hi)[b],
        forall|a: int| 0 <= a < successors(s, j, hi).len() ==> successors(s, j, hi)[a] < hi,
    decreases hi,
{
    if hi > 0 {
        lemma_successors(s, j, hi - 1);
        let prev = successors(s, j, hi - 1);
        if edge(s, j, hi - 1) {
            let cur = successors(s, j, hi);
            assert(cur == prev.push((hi - 1) as usize));
            assert forall|a: int, b: int| 0 <= a < b < cur.len() implies cur[a] < cur[b] by {
                if b == cur.len() - 1 {
                    assert(cur[a] == prev[a]);
                } else {
                    assert(cur[a] == prev[a] && cur[b] == prev[b]);
                }
            }
            assert forall|v: usize| #[trigger] successors(s, j, hi).contains(v) <==> (v < hi && edge(s, j, v as int)) by {
                if v == hi - 1 {
                    assert(successors(s, j, hi).last() == v);
                } else if prev.contains(v) {
                    let t = choose|t: int| 0 <= t < prev.len() && prev[t] == v;
                    assert(successors(s, j, hi)[t] == v);
                }
                if successors(s, j, hi).contains(v) && v != hi - 1 {
                    let t = choose|t: int| 0 <= t < successors(s, j, hi).len() && successors(s, j, hi)[t] == v;
                    assert(t != prev.len());
                    assert(t < prev.len());
                    assert(prev[t] == v);
                }
            }
        }
    }
}

/// Whether `v` holds `x`.
fn contains_index(v: &Vec<usize>, x: usize) -> (r: bool)
    ensures
        r == v@.contains(x),
{
    let mut i: usize = 0;
    while i < v.len()
        invariant
            i <= v@.len(),
            forall|t: int| 0 <= t < i ==> v@[t] != x,
        decreases v.len() - i,
    {
        if v[i] == x {
            return true;
        }
        i += 1;
    }
    false
}

/// Whether module `i` depends on module `j`.
fn has_edge(modules: &Vec<DiscoveredModule>, resolved: &Vec<Vec<usize>>, j: usize, i: usize) -> (r: bool)
    requires
        i < modules@.len(),
        j < modules@.len(),
        resolved@.len() == modules@.len(),
        forall|i: int, j: usize| 0 <= i < modules@.len() ==>
            ((#[trigger] resolved@[i]@.contains(j)) <==> (exists|k: int| 0 <= k < dep_count(modules@[i]) && #[trigger] lookup_name(modules@, dep_name(modules@[i], k)) == j as int)),
    ensures
        r == edge(modules@, j as int, i as int),
{
    let skip = match &modules[i].status {
        ModuleStatus::FailedManifest(_) => true,
        ModuleStatus::SkippedCycle(_) => true,
        _ => false,
    };
    if skip {
        return false;
    }
    let r = contains_index(&resolved[i], j);
    assert(r == resolved@[i as int]@.contains(j));
    r
}

/// The dependency graph: for each module the number of modules it depends
/// on, and for each module the list of its dependents.
fn dependency_graph(modules: &Vec<DiscoveredModule>, names: &Vec<Vec<char>>) -> (res: (Vec<usize>, Vec<Vec<usize>>))
    requires
        names@.len() == modules@.len(),
        forall|i: int| 0 <= i < names@.len() ==> (#[trigger] names@[i])@ == modules@[i].name(),
    ensures
        res.0@.len() == modules@.len(),
        res.1@.len() == modules@.len(),
        forall|v: int| 0 <= v < modules@.len() ==> res.0@[v] == pending(modules@, Seq::new(modules@.len(), |x: int| false), v, modules@.len() as int),
        forall|j: int| 0 <= j < modules@.len() ==> (#[trigger] res.1@[j])@ == successors(modules@, j, modules@.len() as int),
{
    let n = modules.len();
    let resolved = resolve_dependencies(modules, names);
    let ghost none_placed = Seq::new(n as nat, |x: int| false);
    let mut indegree: Vec<usize> = Vec::new();
    let mut i: usize = 0;
    while i < n
        invariant
            n == modules@.len(),
            resolved@.len() == modules@.len(),
            forall|i: int, j: usize| 0 <= i < modules@.len() ==>
                ((#[trigger] resolved@[i]@.contains(j)) <==> (exists|k: int| 0 <= k < dep_count(modules@[i]) && #[trigger] lookup_name(modules@, dep_name(modules@[i], k)) == j as int)),
            none_placed == Seq::new(n as nat, |x: int| false),
            i <= n,
            indegree@.len() == i,
            forall|v: int| 0 <= v < i ==> indegree@[v] == pending(modules@, none_placed, v, n as int),
        decreases n - i,
    {
        let mut count: usize = 0;
        let mut j: usize = 0;
        while j < n
            invariant
                n == modules@.len(),
                resolved@.len() == modules@.len(),
                forall|i: int, j: usize| 0 <= i < modules@.len() ==>
                    ((#[trigger] resolved@[i]@.contains(j)) <==> (exists|k: int| 0 <= k < dep_count(modules@[i]) && #[trigger] lookup_name(modules@, dep_name(modules@[i], k)) == j as int)),
                none_placed == Seq::new(n as nat, |x: int| false),
                i < n,
                j <= n,
                count == pending(modules@, none_placed, i as int, j as int),
                count <= j,
            decreases n - j,
        {
            if has_edge(modules, &resolved, j, i) {
                count += 1;
            }
            j += 1;
        }
        indegree.push(count);
        i += 1;
    }
    let mut adjacency: Vec<Vec<usize>> = Vec::new();
    let mut j: usize = 0;
    while j < n
        invariant
            n == modules@.len(),
            resolved@.len() == modules@.len(),
            forall|i: int, j: usize| 0 <= i < modules@.len() ==>
                ((#[trigger] resolved@[i]@.contains(j)) <==> (exists|k: int| 0 <= k < dep_count(modules@[i]) && #[trigger] lookup_name(modules@, dep_name(modules@[i], k)) == j as int)),
            j <= n,
            adjacency@.len() == j,
            forall|t: int| 0 <= t < j ==> (#[trigger] adjacency@[t])@ == successors(modules@, t, n as int),
        decreases n - j,
    {
        let mut row: Vec<usize> = Vec::new();
        let mut i: usize = 0;
        while i < n
            invariant
                n == modules@.len(),
                resolved@.len() == modules@.len(),
                forall|i: int, j: usize| 0 <= i < modules@.len() ==>
                    ((#[trigger] resolved@[i]@.contains(j)) <==> (exists|k: int| 0 <= k < dep_count(modules@[i]) && #[trigger] lookup_name(modules@, dep_name(modules@[i], k)) == j as int)),
                j < n,
                i <= n,
                row@ == successors(modules@, j as int, i as int),
            decreases n - i,
        {
            if has_edge(modules, &resolved, j, i) {
                row.push(i);
            }
            i += 1;
        }
        adjacency.push(row);
        j += 1;
    }
    (indegree, adjacency)
}


/// Strict lexicographic order on character sequences (the order of `str`).
pub open spec fn chars_lt(a: Seq<char>, b: Seq<char>) -> bool
    decreases a.len(),
{
    if a.len() == 0 {
        b.len() > 0
    } else if b.len() == 0 {
        false
    } else if a[0] < b[0] {
        true
    } else if a[0] > b[0] {
        false
    } else {
        chars_lt(a.drop_first(), b.drop_first())
    }
}

/// No name comes before itself in the character order.
pub proof fn lemma_chars_lt_irreflexive(a: Seq<char>)
    ensures
        !chars_lt(a, a),
    decreases a.len(),
{
    if a.len() > 0 {
        lemma_chars_lt_irreflexive(a.drop_first());
    }
}

/// The character order on names is transitive.
pub proof fn lemma_chars_lt_transitive(a: Seq<char>, b: Seq<char>, c: Seq<char>)
    requires
        chars_lt(a, b),
        chars_lt(b, c),
    ensures
        chars_lt(a, c),
    decreases a.len(),
{
    if a.len() > 0 && b.len() > 0 && c.len() > 0 && a[0] == b[0] && b[0] == c[0] {
        lemma_chars_lt_transitive(a.drop_first(), b.drop_first(), c.drop_first());
    }
}

/// Of two names, either they are equal or one comes first.
pub proof fn lemma_chars_lt_total(a: Seq<char>, b: Seq<char>)
    ensures
        chars_lt(a, b) || a == b || chars_lt(b, a),
    decreases a.len(),
{
    if a.len() > 0 && b.len() > 0 && a[0] == b[0] {
        lemma_chars_lt_total(a.drop_first(), b.drop_first());
        if a.drop_first() == b.drop_first() {
            assert(a =~= seq![a[0]] + a.drop_first());
            assert(b =~= seq![b[0]] + b.drop_first());
        }
    } else if a.len() == 0 && b.len() == 0 {
        assert(a =~= b);
    }
}

/// The prefix number by which modules are ordered; none orders last.
pub open spec fn prefix_key(m: DiscoveredModule) -> int {
    match m.prefix_order {
        Some(p) => p as int,
        None => u32::MAX as int,
    }
}

/// Module `a` comes before module `b` when both are free to go: by
/// directory, then prefix, then name, then position.
pub open spec fn key_lt(s: Seq<DiscoveredModule>, a: int, b: int) -> bool {
    ||| s[a].dir_index < s[b].dir_index
    ||| s[a].dir_index == s[b].dir_index && prefix_key(s[a]) < prefix_key(s[b])
    ||| s[a].dir_index == s[b].dir_index && prefix_key(s[a]) == prefix_key(s[b]) && chars_lt(s[a].name(), s[b].name())
    ||| s[a].dir_index == s[b].dir_index && prefix_key(s[a]) == prefix_key(s[b]) && s[a].name() == s[b].name() && a < b
}

/// The module order is transitive.
pub proof fn lemma_key_lt_transitive(s: Seq<DiscoveredModule>, a: int, b: int, c: int)
    requires
        key_lt(s, a, b),
        key_lt(s, b, c),
    ensures
        key_lt(s, a, c),
{
    if s[a].dir_index == s[b].dir_index && s[b].dir_index == s[c].dir_index && prefix_key(s[a]) == prefix_key(s[b])
        && prefix_key(s[b]) == prefix_key(s[c]) {
        if chars_lt(s[a].name(), s[b].name()) && chars_lt(s[b].name(), s[c].name()) {
            lemma_chars_lt_transitive(s[a].name(), s[b].name(), s[c].name());
        }
    }
}

/// No module comes before itself.
pub proof fn lemma_key_lt_irreflexive(s: Seq<DiscoveredModule>, a: int)
    ensures
        !key_lt(s, a, a),
{
    lemma_chars_lt_irreflexive(s[a].name());
}

/// Of two different positions, one always comes before the other, so the
/// order ties no two modules.
pub proof fn lemma_key_lt_total(s: Seq<DiscoveredModule>, a: int, b: int)
    requires
        a != b,
    ensures
        key_lt(s, a, b) || key_lt(s, b, a),
{
    lemma_chars_lt_total(s[a].name(), s[b].name());
}

/// Whether `a` comes before `b` in the character order.
fn chars_less(a: &Vec<char>, b: &Vec<char>) -> (r: bool)
    ensures
        r == chars_lt(a@, b@),
{
    let mut i: usize = 0;
    assert(a@.skip(0) == a@ && b@.skip(0) == b@);
    while i < a.len() && i < b.len() && a[i] == b[i]
        invariant
            i <= a@.len(),
            i <= b@.len(),
            forall|t: int| 0 <= t < i ==> a@[t] == b@[t],
            chars_lt(a@, b@) == chars_lt(a@.skip(i as int), b@.skip(i as int)),
        decreases a.len() - i,
    {
        proof {
            assert(a@.skip(i as int).drop_first() =~= a@.skip(i + 1));
            assert(b@.skip(i as int).drop_first() =~= b@.skip(i + 1));
        }
        i += 1;
    }
    if i == a.len() {
        i < b.len()
    } else if i == b.len() {
        false
    } else {
        a[i] < b[i]
    }
}

/// Whether module `a` comes before module `b`.
fn key_less(modules: &Vec<DiscoveredModule>, names: &Vec<Vec<char>>, a: usize, b: usize) -> (r: bool)
    requires
        a < modules@.len(),
        b < modules@.len(),
        names@.len() == modules@.len(),
        forall|i: int| 0 <= i < names@.len() ==> (#[trigger] names@[i])@ == modules@[i].name(),
    ensures
        r == key_lt(modules@, a as int, b as int),
{
    let ma = &modules[a];
    let mb = &modules[b];
    if ma.dir_index != mb.dir_index {
        return ma.dir_index < mb.dir_index;
    }
    let pa = match ma.prefix_order {
        Some(p) => p,
        None => u32::MAX,
    };
    let pb = match mb.prefix_order {
        Some(p) => p,
        None => u32::MAX,
    };
    if pa != pb {
        return pa < pb;
    }
    let na = &names[a];
    let nb = &names[b];
    if chars_less(na, nb) {
        return true;
    }
    if chars_equal(na, nb) {
        return a < b;
    }
    proof {
        assert(na@ == modules@[a as int].name());
        assert(nb@ == modules@[b as int].name());
    }
    false
}

/// The number of modules not yet placed.
pub open spec fn count_unplaced(placed: Seq<bool>) -> nat
    decreases placed.len(),
{
    if placed.len() == 0 {
        0
    } else {
        count_unplaced(placed.drop_last()) + if placed.last() { 0nat } else { 1nat }
    }
}

pub(crate) proof fn lemma_count_unplaced_update(placed: Seq<bool>, u: int)
    requires
        0 <= u < placed.len(),
        !placed[u],
    ensures
        count_unplaced(placed.update(u, true)) + 1 == count_unplaced(placed),
    decreases placed.len(),
{
    let q = placed.update(u, true);
    if u < placed.len() - 1 {
        assert(q.drop_last() == placed.drop_last().update(u, true));
        lemma_count_unplaced_update(placed.drop_last(), u);
    } else {
        assert(q.drop_last() == placed.drop_last());
    }
}

proof fn lemma_pending_zero(s: Seq<DiscoveredModule>, placed: Seq<bool>, v: int, hi: int)
    ensures
        (pending(s, placed, v, hi) == 0) <==> (forall|j: int| 0 <= j < hi && #[trigger] edge(s, j, v) ==> placed[j]),
    decreases hi,
{
    if hi > 0 {
        lemma_pending_zero(s, placed, v, hi - 1);
        if pending(s, placed, v, hi) == 0 {
            assert forall|j: int| 0 <= j < hi && #[trigger] edge(s, j, v) implies placed[j] by {
                if j < hi - 1 {
                } else {
                }
            }
        }
    }
}

proof fn lemma_pending_place(s: Seq<DiscoveredModule>, placed: Seq<bool>, u: int, v: int, hi: int)
    requires
        0 <= u < placed.len(),
        hi <= placed.len(),
        !placed[u],
    ensures
        pending(s, placed.update(u, true), v, hi) + (if 0 <= u < hi && edge(s, u, v) { 1nat } else { 0nat }) == pending(s, placed, v, hi),
    decreases hi,
{
    if hi > 0 {
        lemma_pending_place(s, placed, u, v, hi - 1);
    }
}


/// Module `w` may be placed after the modules of `placed`: it is not among
/// them and every module it depends on is.
pub open spec fn available(s: Seq<DiscoveredModule>, placed: Seq<usize>, w: int) -> bool {
    &&& 0 <= w < s.len()
    &&& !placed.contains(w as usize)
    &&& forall|j: int| #[trigger] edge(s, j, w) ==> placed.contains(j as usize)
}

/// `order` is what the dependency-first placement yields: at each step the
/// first module, by `key_lt`, of those free to go, until none is free.
pub open spec fn kahn_order(s: Seq<DiscoveredModule>, order: Seq<usize>) -> bool {
    &&& forall|k: int| 0 <= k < order.len() ==> available(s, order.take(k), #[trigger] order[k] as int)
    &&& forall|k: int, w: int| 0 <= k < order.len() && #[trigger] available(s, order.take(k), w) ==> !key_lt(s, w, order[k] as int)
    &&& forall|w: int| !available(s, order, w)
}

/// Places the modules dependencies first, taking among the modules free to
/// go the first by `key_lt`.
#[verifier::rlimit(50)]
fn kahn_sort(
    modules: &Vec<DiscoveredModule>,
    names: &Vec<Vec<char>>,
    indegree: Vec<usize>,
    adjacency: &Vec<Vec<usize>>,
) -> (order: Vec<usize>)
    requires
        names@.len() == modules@.len(),
        forall|i: int| 0 <= i < names@.len() ==> (#[trigger] names@[i])@ == modules@[i].name(),
        indegree@.len() == modules@.len(),
        adjacency@.len() == modules@.len(),
        forall|v: int| 0 <= v < modules@.len() ==> indegree@[v] == pending(modules@, Seq::new(modules@.len(), |x: int| false), v, modules@.len() as int),
        forall|j: int| 0 <= j < modules@.len() ==> (#[trigger] adjacency@[j])@ == successors(modules@, j, modules@.len() as int),
    ensures
        kahn_order(modules@, order@),
        order@.no_duplicates(),
        forall|k: int| 0 <= k < order@.len() ==> order@[k] < modules@.len(),
{
    let n = modules.len();
    let ghost s = modules@;
    let mut indeg = indegree;
    let mut placed: Vec<bool> = Vec::new();
    let mut i: usize = 0;
    while i < n
        invariant
            n == s.len(),
            i <= n,
            placed@ == Seq::new(i as nat, |x: int| false),
        decreases n - i,
    {
        placed.push(false);
        i += 1;
    }
    assert(placed@ == Seq::new(n as nat, |x: int| false));
    let mut avail: Vec<usize> = Vec::new();
    let mut i: usize = 0;
    while i < n
        invariant
            n == s.len(),
            i <= n,
            indeg@.len() == n,
            placed@ == Seq::new(n as nat, |x: int| false),
            avail@.no_duplicates(),
            forall|x: usize| avail@.contains(x) <==> (x < i && indeg@[x as int] == 0),
        decreases n - i,
    {
        let ghost before = avail@;
        if indeg[i] == 0 {
            avail.push(i);
        }
        proof {
            assert forall|x: usize| avail@.contains(x) <==> (x < i + 1 && indeg@[x as int] == 0) by {
                if before.contains(x) {
                    let k = choose|k: int| 0 <= k < before.len() && before[k] == x;
                    assert(avail@[k] == x);
                }
                if x == i && indeg@[x as int] == 0 {
                    assert(avail@[avail@.len() - 1] == x);
                }
                if avail@.contains(x) && x != i {
                    let k = choose|k: int| 0 <= k < avail@.len() && avail@[k] == x;
                    assert(k < before.len());
                    assert(before[k] == x);
                }
            }
        }
        i += 1;
    }
    let mut order: Vec<usize> = Vec::new();
    while avail.len() > 0
        invariant
            n == s.len(),
            s == modules@,
            names@.len() == s.len(),
            forall|i: int| 0 <= i < names@.len() ==> (#[trigger] names@[i])@ == s[i].name(),
            adjacency@.len() == n,
            forall|j: int| 0 <= j < n ==> (#[trigger] adjacency@[j])@ == successors(s, j, n as int),
            placed@.len() == n,
            indeg@.len() == n,
            forall|x: usize| x < n ==> (placed@[x as int] <==> order@.contains(x)),
            forall|k: int| 0 <= k < order@.len() ==> order@[k] < n,
            order@.no_duplicates(),
            forall|v: int| 0 <= v < n ==> indeg@[v] == pending(s, placed@, v, n as int),
            avail@.no_duplicates(),
            forall|x: usize| avail@.contains(x) <==> (x < n && !placed@[x as int] && indeg@[x as int] == 0),
            forall|v: int, j: int| 0 <= v < n && placed@[v] && #[trigger] edge(s, j, v) ==> placed@[j],
            forall|k: int| 0 <= k < order@.len() ==> available(s, order@.take(k), #[trigger] order@[k] as int),
            forall|k: int, w: int| 0 <= k < order@.len() && #[trigger] available(s, order@.take(k), w) ==> !key_lt(s, w, order@[k] as int),
        decreases count_unplaced(placed@),
    {
        // the first of the modules free to go
        let mut p: usize = 0;
        let mut q: usize = 1;
        proof { lemma_key_lt_irreflexive(s, avail@[0] as int); }
        while q < avail.len()
            invariant
                n == s.len(),
                s == modules@,
                names@.len() == s.len(),
                forall|i: int| 0 <= i < names@.len() ==> (#[trigger] names@[i])@ == s[i].name(),
                forall|x: usize| avail@.contains(x) ==> x < n,
                p < q <= avail@.len(),
                forall|r: int| 0 <= r < q ==> !key_lt(s, avail@[r] as int, avail@[p as int] as int),
            decreases avail.len() - q,
        {
            assert(avail@.contains(avail@[q as int]));
            assert(avail@.contains(avail@[p as int]));
            if key_less(modules, names, avail[q], avail[p]) {
                proof {
                    assert forall|r: int| 0 <= r < q + 1 implies !key_lt(s, avail@[r] as int, avail@[q as int] as int) by {
                        if r == q {
                            lemma_key_lt_irreflexive(s, avail@[q as int] as int);
                        } else if key_lt(s, avail@[r] as int, avail@[q as int] as int) {
                            lemma_key_lt_transitive(s, avail@[r] as int, avail@[q as int] as int, avail@[p as int] as int);
                        }
                    }
                }
                p = q;
            }
            q += 1;
        }
        let ghost avail_before = avail@;
        let ghost placed_before = placed@;
        let ghost order_before = order@;
        let u = avail.remove(p);
        assert(avail_before.contains(u));
        assert(avail@ == avail_before.remove(p as int));
        proof {
            lemma_pending_zero(s, placed_before, u as int, n as int);
            assert forall|j: int| #[trigger] edge(s, j, u as int) implies order_before.contains(j as usize) by {
                assert(placed_before[j]);
            }
            assert(available(s, order_before, u as int));
            assert forall|w: int| #[trigger] available(s, order_before, w) implies !key_lt(s, w, u as int) by {
                lemma_pending_zero(s, placed_before, w, n as int);
                assert forall|j: int| 0 <= j < n && #[trigger] edge(s, j, w) implies placed_before[j] by {
                    assert(order_before.contains(j as usize));
                }
                assert(avail_before.contains(w as usize));
                let r = choose|r: int| 0 <= r < avail_before.len() && avail_before[r] == w as usize;
            }
            lemma_count_unplaced_update(placed_before, u as int);
        }
        order.push(u);
        placed.set(u, true);
        proof {
            assert(order@.take(order_before.len() as int) == order_before);
            assert forall|k: int| 0 <= k < order_before.len() implies order@.take(k) == order_before.take(k) by {}
            assert forall|x: usize| x < n implies (placed@[x as int] <==> order@.contains(x)) by {
                if order@.contains(x) && x != u {
                    let k = choose|k: int| 0 <= k < order@.len() && order@[k] == x;
                    assert(order_before[k] == x);
                }
                if x != u && placed@[x as int] {
                    assert(order_before.contains(x));
                    let k = choose|k: int| 0 <= k < order_before.len() && order_before[k] == x;
                    assert(order@[k] == x);
                }
                if x == u {
                    assert(order@[order_before.len() as int] == u);
                }
            }
            assert forall|v: int| 0 <= v < n implies #[trigger] indeg@[v] == pending(s, placed@, v, n as int) + (if edge(s, u as int, v) { 1nat } else { 0nat }) by {
                lemma_pending_place(s, placed_before, u as int, v, n as int);
            }
            assert(!edge(s, u as int, u as int));
            assert forall|x: usize| avail@.contains(x) <==> (x < n && !placed@[x as int] && indeg@[x as int] == 0) by {
                if avail@.contains(x) {
                    let k = choose|k: int| 0 <= k < avail@.len() && avail@[k] == x;
                    if k < p {
                        assert(avail_before[k] == x);
                        assert(avail_before[k] != avail_before[p as int]);
                    } else {
                        assert(avail_before[k + 1] == x);
                        assert(avail_before[k + 1] != avail_before[p as int]);
                    }
                    assert(avail_before.contains(x));
                    assert(x != u);
                    assert(placed@[x as int] == placed_before[x as int]);
                }
                if x < n && !placed@[x as int] && indeg@[x as int] == 0 {
                    assert(x != u);
                    assert(avail_before.contains(x));
                    let k = choose|k: int| 0 <= k < avail_before.len() && avail_before[k] == x;
                    assert(k != p);
                    if k < p {
                        assert(avail@[k] == x);
                    } else {
                        assert(avail@[k - 1] == x);
                    }
                }
            }
        }
        let succ = &adjacency[u];
        proof { lemma_successors(s, u as int, n as int); }
        let mut t: usize = 0;
        while t < succ.len()
            invariant
                n == s.len(),
                u < n,
                succ@ == successors(s, u as int, n as int),
                forall|v: usize| #[trigger] successors(s, u as int, n as int).contains(v) <==> (v < n && edge(s, u as int, v as int)),
                forall|a: int, b: int| 0 <= a < b < successors(s, u as int, n as int).len() ==> successors(s, u as int, n as int)[a] < successors(s, u as int, n as int)[b],
                t <= succ@.len(),
                placed@ == placed_before.update(u as int, true),
                placed_before.len() == n,
                !placed_before[u as int],
                !edge(s, u as int, u as int),
                forall|v: int, j: int| 0 <= v < n && placed_before[v] && #[trigger] edge(s, j, v) ==> placed_before[j],
                indeg@.len() == n,
                forall|v: int| 0 <= v < n ==> #[trigger] indeg@[v] == pending(s, placed@, v, n as int) + (if edge(s, u as int, v) && !succ@.take(t as int).contains(v as usize) { 1nat } else { 0nat }),
                avail@.no_duplicates(),
                forall|x: usize| avail@.contains(x) <==> (x < n && !placed@[x as int] && indeg@[x as int] == 0),
            decreases succ.len() - t,
        {
            let v = succ[t];
            assert(successors(s, u as int, n as int).contains(v));
            assert(!succ@.take(t as int).contains(v)) by {
                if succ@.take(t as int).contains(v) {
                    let a = choose|a: int| 0 <= a < t && succ@.take(t as int)[a] == v;
                    assert(succ@[a] < succ@[t as int]);
                }
            }
            assert(indeg@[v as int] >= 1);
            let ghost take_before = succ@.take(t as int);
            assert(succ@.take(t + 1) == take_before.push(v));
            indeg.set(v, indeg[v] - 1);
            let ghost avail_mid = avail@;
            if indeg[v] == 0 {
                assert(!avail@.contains(v));
                assert(v != u);
                assert(!placed@[v as int]) by {
                    if placed_before[v as int] {
                        assert(edge(s, u as int, v as int));
                    }
                }
                avail.push(v);
            }
            proof {
                assert forall|x: int| 0 <= x < n implies #[trigger] indeg@[x] == pending(s, placed@, x, n as int) + (if edge(s, u as int, x) && !succ@.take(t + 1).contains(x as usize) { 1nat } else { 0nat }) by {
                    if x != v {
                        assert(succ@.take(t + 1).contains(x as usize) == take_before.contains(x as usize));
                    } else {
                        assert(succ@.take(t + 1)[t as int] == v);
                    }
                }
                assert forall|x: usize| avail@.contains(x) <==> (x < n && !placed@[x as int] && indeg@[x as int] == 0) by {
                    if avail_mid.contains(x) {
                        let k = choose|k: int| 0 <= k < avail_mid.len() && avail_mid[k] == x;
                        assert(avail@[k] == x);
                    }
                    if avail@.contains(x) && !avail_mid.contains(x) {
                        let k = choose|k: int| 0 <= k < avail@.len() && avail@[k] == x;
                        if k < avail_mid.len() {
                            assert(avail_mid[k] == x);
                        }
                        assert(x == v);
                    }
                    if x == v && indeg@[x as int] == 0 && !placed@[x as int] {
                        assert(avail@[avail@.len() - 1] == x);
                    }
                }
            }
            t += 1;
        }
        proof {
            assert(succ@.take(succ@.len() as int) == succ@);
            assert forall|v: int| 0 <= v < n implies indeg@[v] == pending(s, placed@, v, n as int) by {
                if edge(s, u as int, v) {
                    assert(successors(s, u as int, n as int).contains(v as usize));
                }
            }
            assert forall|v: int, j: int| 0 <= v < n && placed@[v] && #[trigger] edge(s, j, v) implies placed@[j] by {
                if v == u {
                    assert(order_before.contains(j as usize));
                }
            }
        }
    }
    proof {
        assert forall|w: int| !available(s, order@, w) by {
            if available(s, order@, w) {
                lemma_pending_zero(s, placed@, w, n as int);
                assert forall|j: int| 0 <= j < n && #[trigger] edge(s, j, w) implies placed@[j] by {
                    assert(order@.contains(j as usize));
                }
                assert(avail@.contains(w as usize));
            }
        }
    }
    order
}


/// Whether dependency entry `k` of a module repeats an earlier entry's name.
pub open spec fn repeats_earlier(m: DiscoveredModule, k: int) -> bool {
    exists|j: int| 0 <= j < k && dep_name(m, j) == dep_name(m, k)
}

/// The first dependency entry, from `k` on, that repeats an earlier entry's
/// name, or -1.
pub open spec fn first_repeat_from(m: DiscoveredModule, k: int) -> int
    decreases dep_count(m) - k,
{
    if k < 0 || k >= dep_count(m) {
        -1
    } else if repeats_earlier(m, k) {
        k
    } else {
        first_repeat_from(m, k + 1)
    }
}

/// The first dependency entry that repeats an earlier entry's name, or -1.
pub open spec fn first_repeat(m: DiscoveredModule) -> int {
    first_repeat_from(m, 0)
}

/// Two modules that agree in everything but their status.
pub open spec fn same_but_status(a: DiscoveredModule, b: DiscoveredModule) -> bool {
    &&& a.path == b.path
    &&& a.manifest == b.manifest
    &&& a.prefix_order == b.prefix_order
    &&& a.dir_index == b.dir_index
}

/// `new` is `old` with a repeated dependency entry reported: the status
/// names the first repeated entry, and is kept when there is none.
pub open spec fn duplicates_marked(old: DiscoveredModule, new: DiscoveredModule) -> bool {
    &&& same_but_status(old, new)
    &&& if first_repeat(old) >= 0 {
        new.status matches ModuleStatus::WarnDuplicateDep(n) && n@ == dep_name(old, first_repeat(old))
    } else {
        new.status == old.status
    }
}

proof fn lemma_first_repeat_from(m: DiscoveredModule, k: int)
    requires
        0 <= k,
    ensures
        first_repeat_from(m, k) == -1 || (k <= first_repeat_from(m, k) < dep_count(m) && repeats_earlier(m, first_repeat_from(m, k))),
        forall|q: int| k <= q < dep_count(m) && (first_repeat_from(m, k) == -1 || q < first_repeat_from(m, k)) ==> !repeats_earlier(m, q),
    decreases dep_count(m) - k,
{
    if k < dep_count(m) && !repeats_earlier(m, k) {
        lemma_first_repeat_from(m, k + 1);
    }
}

proof fn lemma_first_repeat_found(m: DiscoveredModule, k: int)
    requires
        0 <= k < dep_count(m),
        repeats_earlier(m, k),
        forall|q: int| 0 <= q < k ==> !repeats_earlier(m, q),
    ensures
        first_repeat(m) == k,
    decreases k,
{
    assert forall|r: int| 0 <= r <= k implies first_repeat_from(m, r) == k by {
        lemma_first_repeat_step(m, r, k);
    }
}

proof fn lemma_first_repeat_step(m: DiscoveredModule, r: int, k: int)
    requires
        0 <= r <= k < dep_count(m),
        repeats_earlier(m, k),
        forall|q: int| 0 <= q < k ==> !repeats_earlier(m, q),
    ensures
        first_repeat_from(m, r) == k,
    decreases k - r,
{
    if r < k {
        lemma_first_repeat_step(m, r + 1, k);
    }
}

proof fn lemma_first_repeat_none(m: DiscoveredModule, r: int)
    requires
        0 <= r <= dep_count(m),
        forall|q: int| r <= q < dep_count(m) ==> !repeats_earlier(m, q),
    ensures
        first_repeat_from(m, r) == -1,
    decreases dep_count(m) - r,
{
    if r < dep_count(m) {
        lemma_first_repeat_none(m, r + 1);
    }
}

/// Whether some vector of `seen` equals `name`.
fn seen_contains(seen: &Vec<Vec<char>>, name: &Vec<char>) -> (r: bool)
    ensures
        r == exists|t: int| 0 <= t < seen@.len() && (#[trigger] seen@[t])@ == name@,
{
    let mut i: usize = 0;
    while i < seen.len()
        invariant
            i <= seen@.len(),
            forall|t: int| 0 <= t < i ==> (#[trigger] seen@[t])@ != name@,
        decreases seen.len() - i,
    {
        if chars_equal(&seen[i], name) {
            return true;
        }
        i += 1;
    }
    false
}

/// Reports, for each module, the first dependency entry that repeats an
/// earlier one.
fn validate_dupes(modules: &mut Vec<DiscoveredModule>)
    ensures
        final(modules)@.len() == old(modules)@.len(),
        forall|i: int| 0 <= i < old(modules)@.len() ==> duplicates_marked(#[trigger] old(modules)@[i], final(modules)@[i]),
{
    let ghost start = modules@;
    let mut i: usize = 0;
    while i < modules.len()
        invariant
            modules@.len() == start.len(),
            i <= modules@.len(),
            forall|t: int| 0 <= t < i ==> duplicates_marked(#[trigger] start[t], modules@[t]),
            forall|t: int| i <= t < modules@.len() ==> modules@[t] == start[t],
        decreases modules.len() - i,
    {
        let ghost snapshot = modules@;
        let ghost m = modules@[i as int];
        let mut seen: Vec<Vec<char>> = Vec::new();
        let mut found: Option<String> = None;
        let mut k: usize = 0;
        let count = modules[i].manifest.module.deps.len();
        while k < count && found.is_none()
            invariant
                i < modules@.len(),
                modules@ == snapshot,
                m == modules@[i as int],
                count == dep_count(m),
                k <= count,
                seen@.len() == k,
                forall|t: int| 0 <= t < k ==> (#[trigger] seen@[t])@ == dep_name(m, t),
                match found {
                    Some(n) => first_repeat(m) >= 0 && n@ == dep_name(m, first_repeat(m)),
                    None => forall|q: int| 0 <= q < k ==> !repeats_earlier(m, q),
                },
            decreases count - k + if found is None { 1int } else { 0int },
        {
            let name = chars_of(modules[i].manifest.module.deps[k].name.as_str());
            assert(name@ == dep_name(m, k as int));
            if seen_contains(&seen, &name) {
                proof {
                    let t = choose|t: int| 0 <= t < seen@.len() && (#[trigger] seen@[t])@ == name@;
                    assert(dep_name(m, t) == dep_name(m, k as int));
                    lemma_first_repeat_found(m, k as int);
                }
                found = Some(modules[i].manifest.module.deps[k].name.clone());
            } else {
                proof {
                    assert forall|j: int| 0 <= j < k implies dep_name(m, j) != dep_name(m, k as int) by {
                        assert(seen@[j]@ == dep_name(m, j));
                    }
                }
                seen.push(name);
                k += 1;
            }
        }
        proof {
            if found is None {
                lemma_first_repeat_none(m, 0);
            }
        }
        if let Some(n) = found {
            modules[i].status = ModuleStatus::WarnDuplicateDep(n);
        }
        assert(duplicates_marked(start[i as int], modules@[i as int]));
        i += 1;
    }
}


/// The dependency lists as sequences.
pub open spec fn adj_view(adjacency: Seq<Vec<usize>>) -> Seq<Seq<usize>> {
    adjacency.map_values(|v: Vec<usize>| v@)
}

/// `p` walks from `p[0]` along dependency edges through modules of the
/// cycle and ends at a module that has an edge to `target`.
pub open spec fn cycle_walk(adj: Seq<Seq<usize>>, cyclic: Seq<bool>, p: Seq<usize>, target: int) -> bool {
    &&& p.len() >= 1
    &&& forall|t: int| 0 <= t < p.len() ==> (#[trigger] p[t]) < adj.len()
    &&& forall|t: int| 0 <= t < p.len() - 1 ==> adj[p[t] as int].contains(#[trigger] p[t + 1]) && cyclic[p[t + 1] as int]
    &&& adj[p.last() as int].contains(target as usize)
}

/// The names of the modules at the given positions.
pub open spec fn names_at(names: Seq<Seq<char>>, p: Seq<usize>) -> Seq<Seq<char>> {
    p.map_values(|x: usize| names[x as int])
}

/// Module `start` lies on a cycle: a walk through modules of the cycle leads
/// from it back to it.
pub open spec fn on_cycle(adj: Seq<Seq<usize>>, cyclic: Seq<bool>, start: int) -> bool {
    exists|p: Seq<usize>| #![trigger cycle_walk(adj, cyclic, p, start)]
        p[0] == start && cycle_walk(adj, cyclic, p, start)
}

/// What is reported for a module on a cycle: the names along a closed walk
/// from it back to it that passes no module twice.
pub open spec fn cycle_path(adj: Seq<Seq<usize>>, cyclic: Seq<bool>, names: Seq<Seq<char>>, start: int, path: Seq<Seq<char>>) -> bool {
    exists|p: Seq<usize>| #![trigger cycle_walk(adj, cyclic, p, start)]
        p[0] == start && cycle_walk(adj, cyclic, p, start) && p.no_duplicates() && path == names_at(names, p).push(names[start])
}

/// A search from `start` that marked nothing beforehand and found no way
/// back shows that `start` lies on no cycle.
proof fn lemma_no_cycle(adj: Seq<Seq<usize>>, cyclic: Seq<bool>, start: int, visited: Seq<bool>)
    requires
        0 <= start < adj.len(),
        cyclic.len() == adj.len(),
        visited.len() == adj.len(),
        cyclic[start],
        forall|v: int| 0 <= v < adj.len() && (v == start || visited[v]) ==> #[trigger] search_closed(adj, cyclic, v, start, visited),
    ensures
        !on_cycle(adj, cyclic, start),
{
    if on_cycle(adj, cyclic, start) {
        let p = choose|p: Seq<usize>| #![trigger cycle_walk(adj, cyclic, p, start)] p[0] == start && cycle_walk(adj, cyclic, p, start);
        assert forall|t: int| 0 <= t < p.len() implies (p[t] == start || visited[p[t] as int]) by {
            lemma_walk_marked(adj, cyclic, start, visited, p, t);
        }
        let l = p.len() - 1;
        assert(p[l] == p.last());
        assert(p[l] == start || visited[p[l] as int]);
        assert(search_closed(adj, cyclic, p[l] as int, start, visited));
        let t = choose|t: int| 0 <= t < adj[p[l] as int].len() && adj[p[l] as int][t] == start as usize;
        assert(cyclic[adj[p[l] as int][t] as int]);
    }
}

proof fn lemma_walk_marked(adj: Seq<Seq<usize>>, cyclic: Seq<bool>, start: int, visited: Seq<bool>, p: Seq<usize>, t: int)
    requires
        0 <= start < adj.len(),
        visited.len() == adj.len(),
        forall|v: int| 0 <= v < adj.len() && (v == start || visited[v]) ==> #[trigger] search_closed(adj, cyclic, v, start, visited),
        p[0] == start,
        cycle_walk(adj, cyclic, p, start),
        0 <= t < p.len(),
    ensures
        p[t] == start || visited[p[t] as int],
    decreases t,
{
    if t > 0 {
        lemma_walk_marked(adj, cyclic, start, visited, p, t - 1);
        let u = t - 1;
        assert(adj[p[u] as int].contains(p[u + 1]) && cyclic[p[u + 1] as int]);
        assert(p[u] < adj.len());
        assert(search_closed(adj, cyclic, p[u] as int, start, visited));
        let k = choose|k: int| 0 <= k < adj[p[u] as int].len() && adj[p[u] as int][k] == p[u + 1];
        assert(visited[adj[p[u] as int][k] as int]);
    }
}

proof fn lemma_count_unplaced_mono(a: Seq<bool>, b: Seq<bool>)
    requires
        a.len() == b.len(),
        forall|i: int| 0 <= i < a.len() && a[i] ==> b[i],
    ensures
        count_unplaced(b) <= count_unplaced(a),
        (exists|i: int| 0 <= i < a.len() && !a[i] && b[i]) ==> count_unplaced(b) < count_unplaced(a),
    decreases a.len(),
{
    if a.len() > 0 {
        lemma_count_unplaced_mono(a.drop_last(), b.drop_last());
        if exists|i: int| 0 <= i < a.len() && !a[i] && b[i] {
            let i = choose|i: int| 0 <= i < a.len() && !a[i] && b[i];
            if i < a.len() - 1 {
                assert(!a.drop_last()[i] && b.drop_last()[i]);
            }
        }
    }
}

/// Every neighbour of `v` that is in the cycle is marked in `visited` and is
/// not `target`: the search has looked past `v` and found no way on.
pub open spec fn search_closed(adj: Seq<Seq<usize>>, cyclic: Seq<bool>, v: int, target: int, visited: Seq<bool>) -> bool {
    forall|t: int| #![trigger adj[v][t]]
        0 <= t < adj[v].len() && cyclic[adj[v][t] as int] ==> adj[v][t] != target && visited[adj[v][t] as int]
}

proof fn lemma_search_closed_grows(adj: Seq<Seq<usize>>, cyclic: Seq<bool>, v: int, target: int, a: Seq<bool>, b: Seq<bool>)
    requires
        a.len() == b.len(),
        forall|i: int| 0 <= i < a.len() && a[i] ==> b[i],
        forall|t: int| 0 <= t < adj[v].len() ==> (#[trigger] adj[v][t]) < a.len(),
        search_closed(adj, cyclic, v, target, a),
    ensures
        search_closed(adj, cyclic, v, target, b),
{
    assert forall|t: int| 0 <= t < adj[v].len() && cyclic[adj[v][t] as int] implies adj[v][t] != target && b[adj[v][t] as int] by {
        assert(a[adj[v][t] as int]);
    }
}

/// Depth-first search, through modules of the cycle, for a walk from
/// `current` to a module with an edge to `target`; on success the walk is
/// left on `stack`. When none is found, `current` and every module the search
/// newly marked have all their neighbours in the cycle marked, none of them
/// `target`: no such walk leaves them.
fn dfs(
    target: usize,
    current: usize,
    adjacency: &Vec<Vec<usize>>,
    is_cyclic: &Vec<bool>,
    visited: &mut Vec<bool>,
    stack: &mut Vec<usize>,
) -> (found: bool)
    requires
        current < adjacency@.len(),
        target < adjacency@.len(),
        is_cyclic@.len() == adjacency@.len(),
        old(visited)@.len() == adjacency@.len(),
        old(visited)@[current as int] || current == target,
        forall|j: int, t: int| 0 <= j < adjacency@.len() && 0 <= t < adjacency@[j]@.len() ==> #[trigger] adjacency@[j]@[t] < adjacency@.len(),
    ensures
        final(visited)@.len() == old(visited)@.len(),
        forall|i: int| 0 <= i < old(visited)@.len() && old(visited)@[i] ==> final(visited)@[i],
        found ==> final(stack)@.len() > old(stack)@.len()
            && final(stack)@.take(old(stack)@.len() as int) == old(stack)@
            && final(stack)@[old(stack)@.len() as int] == current
            && cycle_walk(adj_view(adjacency@), is_cyclic@, final(stack)@.skip(old(stack)@.len() as int), target as int),
        found ==> final(stack)@.skip(old(stack)@.len() as int).no_duplicates(),
        found ==> forall|t: int| 1 <= t < final(stack)@.len() - old(stack)@.len()
            ==> !old(visited)@[#[trigger] final(stack)@[old(stack)@.len() + t] as int]
                && final(stack)@[old(stack)@.len() + t] != target,
        !found ==> final(stack)@ == old(stack)@,
        !found ==> forall|v: int| 0 <= v < old(visited)@.len() && (v == current || (final(visited)@[v] && !old(visited)@[v]))
            ==> #[trigger] search_closed(adj_view(adjacency@), is_cyclic@, v, target as int, final(visited)@),
    decreases count_unplaced(old(visited)@),
{
    let ghost stack0 = stack@;
    let ghost visited0 = visited@;
    let ghost adj = adj_view(adjacency@);
    stack.push(current);
    let neighbors = &adjacency[current];
    let mut idx: usize = 0;
    while idx < neighbors.len()
        invariant
            current < adjacency@.len(),
            target < adjacency@.len(),
            neighbors@ == adjacency@[current as int]@,
            adj == adj_view(adjacency@),
            is_cyclic@.len() == adjacency@.len(),
            forall|j: int, t: int| 0 <= j < adjacency@.len() && 0 <= t < adjacency@[j]@.len() ==> #[trigger] adjacency@[j]@[t] < adjacency@.len(),
            idx <= neighbors@.len(),
            visited0 == old(visited)@,
            visited0[current as int] || current == target,
            visited0.len() == adjacency@.len(),
            stack0 == old(stack)@,
            stack@ == stack0.push(current),
            visited@.len() == visited0.len(),
            forall|i: int| 0 <= i < visited0.len() && visited0[i] ==> visited@[i],
            forall|t: int| 0 <= t < idx && is_cyclic@[neighbors@[t] as int] ==> neighbors@[t] != target && visited@[#[trigger] neighbors@[t] as int],
            forall|v: int| 0 <= v < visited0.len() && visited@[v] && !visited0[v]
                ==> #[trigger] search_closed(adj, is_cyclic@, v, target as int, visited@),
        decreases neighbors.len() - idx,
    {
        let next = neighbors[idx];
        assert(adjacency@[current as int]@[idx as int] == next);
        if is_cyclic[next] {
            if next == target {
                proof {
                    let p = stack@.skip(stack0.len() as int);
                    assert(p =~= seq![current]);
                    assert(stack@.len() - stack0.len() == 1);
                    assert(adj[current as int] == neighbors@);
                    assert(neighbors@.contains(next));
                    assert(stack@.take(stack0.len() as int) =~= stack0);
                    assert(visited@.len() == visited0.len());
                }
                return true;
            }
            if !visited[next] {
                let ghost before = visited@;
                visited.set(next, true);
                proof {
                    lemma_count_unplaced_mono(visited0, visited@);
                    assert(!visited0[next as int]);
                }
                let ghost stack1 = stack@;
                let ghost call_visited = visited@;
                if dfs(target, next, adjacency, is_cyclic, visited, stack) {
                    proof {
                        let q1 = stack@.skip(stack1.len() as int);
                        let p1 = stack@.skip(stack0.len() as int);
                        assert forall|t: int| 0 <= t < q1.len() implies q1[t] != current && (t == 0 || (!visited0[q1[t] as int] && q1[t] != target)) by {
                            assert(q1[t] == stack@[stack1.len() + t]);
                            if t == 0 {
                                assert(!before[next as int]);
                                if visited0[current as int] {
                                    assert(before[current as int]);
                                }
                            } else {
                                assert(!call_visited[q1[t] as int]);
                                assert(call_visited[next as int]);
                                if visited0[current as int] {
                                    assert(call_visited[current as int]);
                                }
                                if visited0[q1[t] as int] {
                                    assert(call_visited[q1[t] as int]);
                                }
                            }
                        }
                        assert(stack@.take(stack1.len() as int) == stack1);
                        assert(stack1.len() == stack0.len() + 1);
                        assert(stack@[stack0.len() as int] == stack1[stack0.len() as int]);
                        assert forall|i: int| 0 <= i < p1.len() implies p1[i] == (seq![current] + q1)[i] by {
                            if i > 0 {
                                assert(p1[i] == stack@[stack0.len() + i]);
                                assert(q1[i - 1] == stack@[stack1.len() + i - 1]);
                            }
                        }
                        assert(p1 =~= seq![current] + q1);
                        assert forall|a: int, b: int| 0 <= a < b < p1.len() implies p1[a] != p1[b] by {
                            if a == 0 {
                                assert(p1[b] == q1[b - 1]);
                            } else {
                                assert(p1[a] == q1[a - 1] && p1[b] == q1[b - 1]);
                            }
                        }
                        assert(p1.no_duplicates());
                        assert forall|t: int| 1 <= t < stack@.len() - stack0.len()
                            implies !visited0[#[trigger] stack@[stack0.len() + t] as int] && stack@[stack0.len() + t] != target by {
                            assert(stack@[stack0.len() + t] == p1[t]);
                            assert(p1[t] == q1[t - 1]);
                            if t == 1 {
                                assert(q1[0] == next);
                                assert(!before[next as int]);
                            }
                        }
                    }
                    proof {
                        let q = stack@.skip(stack1.len() as int);
                        let p = stack@.skip(stack0.len() as int);
                        assert(stack@.take(stack1.len() as int) == stack1);
                        assert(stack1.len() == stack0.len() + 1);
                        assert(stack@[stack0.len() as int] == stack@.take(stack1.len() as int)[stack0.len() as int]);
                        assert(stack1[stack0.len() as int] == current);
                        assert forall|i: int| 0 <= i < p.len() implies p[i] == (seq![current] + q)[i] by {
                            if i > 0 {
                                assert(p[i] == stack@[stack0.len() + i]);
                                assert(q[i - 1] == stack@[stack1.len() + i - 1]);
                            }
                        }
                        assert(p =~= seq![current] + q);
                        assert(adj[current as int] == neighbors@);
                        assert(neighbors@.contains(next));
                        assert(q[0] == next);
                        assert forall|t: int| 0 <= t < p.len() - 1 implies adj[p[t] as int].contains(#[trigger] p[t + 1]) && is_cyclic@[p[t + 1] as int] by {
                            if t > 0 {
                                assert(p[t] == q[t - 1] && p[t + 1] == q[t]);
                                let t1 = t - 1;
                                assert(adj[q[t1] as int].contains(q[t1 + 1]) && is_cyclic@[q[t1 + 1] as int]);
                            } else {
                                assert(p[1] == q[0]);
                            }
                        }
                        assert forall|t: int| 0 <= t < p.len() implies (#[trigger] p[t]) < adj.len() by {
                            if t > 0 {
                                assert(p[t] == q[t - 1]);
                            }
                        }
                        assert(p.last() == q.last());
                        assert(stack@.take(stack0.len() as int) =~= stack0);
                        assert forall|i: int| 0 <= i < visited0.len() && visited0[i] implies visited@[i] by {
                            assert(before[i]);
                        }
                    }
                    return true;
                }
                proof {
                    let after = visited@;
                    assert forall|v: int| 0 <= v < visited0.len() && after[v] && !visited0[v]
                        implies #[trigger] search_closed(adj, is_cyclic@, v, target as int, after) by {
                        if v != next && !before[v] {
                            assert(search_closed(adj, is_cyclic@, v, target as int, after));
                        } else if v != next {
                            assert forall|t: int| 0 <= t < adj[v].len() implies (#[trigger] adj[v][t]) < visited0.len() by {
                                assert(adj[v] == adjacency@[v]@);
                                assert(adjacency@[v]@[t] < adjacency@.len());
                            }
                            lemma_search_closed_grows(adj, is_cyclic@, v, target as int, before, after);
                        }
                    }
                }
            }
        }
        idx += 1;
    }
    stack.pop();
    assert(stack@ =~= stack0);
    proof {
        assert(adj[current as int] == neighbors@);
        assert forall|t: int| 0 <= t < adj[current as int].len() && is_cyclic@[adj[current as int][t] as int]
            implies adj[current as int][t] != target && visited@[adj[current as int][t] as int] by {
            assert(neighbors@[t] == adj[current as int][t]);
        }
        assert(search_closed(adj, is_cyclic@, current as int, target as int, visited@));
    }
    false
}

/// The cycle reported for module `start`, where it lies on one.
fn find_path(
    start: usize,
    adjacency: &Vec<Vec<usize>>,
    is_cyclic: &Vec<bool>,
    modules: &Vec<DiscoveredModule>,
) -> (path: Option<Vec<String>>)
    requires
        adjacency@.len() == modules@.len(),
        start < modules@.len(),
        is_cyclic@.len() == modules@.len(),
        is_cyclic@[start as int],
        forall|j: int, t: int| 0 <= j < adjacency@.len() && 0 <= t < adjacency@[j]@.len() ==> #[trigger] adjacency@[j]@[t] < adjacency@.len(),
    ensures
        match path {
            Some(p) => cycle_path(adj_view(adjacency@), is_cyclic@, module_names(modules@), start as int, p@.map_values(|x: String| x@)),
            None => !on_cycle(adj_view(adjacency@), is_cyclic@, start as int),
        },
{
    let n = modules.len();
    let ghost names = module_names(modules@);
    let ghost adj = adj_view(adjacency@);
    let mut visited: Vec<bool> = Vec::new();
    let mut i: usize = 0;
    while i < n
        invariant
            i <= n,
            visited@.len() == i,
            forall|j: int| 0 <= j < i ==> !visited@[j],
        decreases n - i,
    {
        visited.push(false);
        i += 1;
    }
    let ghost unmarked = visited@;
    let mut stack: Vec<usize> = Vec::new();
    if dfs(start, start, adjacency, is_cyclic, &mut visited, &mut stack) {
        let ghost p = stack@;
        assert(stack@.skip(0) == stack@);
        let mut path: Vec<String> = Vec::new();
        let mut t: usize = 0;
        while t < stack.len()
            invariant
                n == modules@.len(),
                names == module_names(modules@),
                p == stack@,
                cycle_walk(adj, is_cyclic@, p, start as int),
                adj.len() == n,
                t <= stack@.len(),
                path@.map_values(|x: String| x@) == names_at(names, p.take(t as int)),
            decreases stack.len() - t,
        {
            assert(p[t as int] < n);
            let ghost before = path@;
            let nm = modules[stack[t]].manifest.module.name.clone();
            assert(nm@ == names[p[t as int] as int]);
            path.push(nm);
            proof {
                assert(p.take(t + 1) == p.take(t as int).push(p[t as int]));
                assert(path@ == before.push(nm));
                assert(path@.map_values(|x: String| x@) =~= before.map_values(|x: String| x@).push(nm@));
                assert(names_at(names, p.take(t + 1)) =~= names_at(names, p.take(t as int)).push(names[p[t as int] as int]));
                assert(path@.map_values(|x: String| x@) =~= names_at(names, p.take(t + 1)));
            }
            t += 1;
        }
        path.push(modules[start].manifest.module.name.clone());
        proof {
            assert(p.take(p.len() as int) == p);
            assert(path@.map_values(|x: String| x@) =~= names_at(names, p).push(names[start as int]));
            assert(cycle_path(adj, is_cyclic@, names, start as int, path@.map_values(|x: String| x@)));
        }
        Some(path)
    } else {
        proof {
            assert forall|v: int| 0 <= v < adj.len() && (v == start || visited@[v]) implies #[trigger] search_closed(adj, is_cyclic@, v, start as int, visited@) by {
                assert(!unmarked[v]);
            }
            lemma_no_cycle(adj, is_cyclic@, start as int, visited@);
        }
        None
    }
}

/// The dependency lists that `dependency_graph` builds, as sequences.
pub open spec fn graph_adjacency(s: Seq<DiscoveredModule>) -> Seq<Seq<usize>> {
    Seq::new(s.len(), |j: int| successors(s, j, s.len() as int))
}

/// Which modules are left out of `placed`.
pub open spec fn left_out(n: nat, placed: Seq<usize>) -> Seq<bool> {
    Seq::new(n, |v: int| !placed.contains(v as usize))
}

/// `tail` lists the modules below `n` missing from `placed`, each once, in
/// the order of `key_lt`.
pub open spec fn sorted_rest(s: Seq<DiscoveredModule>, placed: Seq<usize>, tail: Seq<usize>) -> bool {
    &&& tail.no_duplicates()
    &&& forall|x: usize| #[trigger] tail.contains(x) <==> (x < s.len() && !placed.contains(x))
    &&& forall|a: int, b: int| 0 <= a < b < tail.len() ==> !key_lt(s, tail[b] as int, tail[a] as int)
}

/// The modules missing from `placed`, ordered by `key_lt`.
fn sort_rest(modules: &Vec<DiscoveredModule>, names: &Vec<Vec<char>>, placed: &Vec<usize>) -> (tail: Vec<usize>)
    requires
        names@.len() == modules@.len(),
        forall|i: int| 0 <= i < names@.len() ==> (#[trigger] names@[i])@ == modules@[i].name(),
    ensures
        sorted_rest(modules@, placed@, tail@),
{
    let n = modules.len();
    let ghost s = modules@;
    let mut remaining: Vec<usize> = Vec::new();
    let mut v: usize = 0;
    while v < n
        invariant
            n == s.len(),
            v <= n,
            remaining@.no_duplicates(),
            forall|x: usize| #[trigger] remaining@.contains(x) <==> (x < v && !placed@.contains(x)),
        decreases n - v,
    {
        let ghost before = remaining@;
        if !contains_index(placed, v) {
            assert(!before.contains(v));
            remaining.push(v);
            assert forall|a: int, b: int| 0 <= a < b < remaining@.len() implies remaining@[a] != remaining@[b] by {
                if b == remaining@.len() - 1 {
                    assert(before.contains(remaining@[a]));
                }
            }
        }
        proof {
            assert forall|x: usize| #[trigger] remaining@.contains(x) <==> (x < v + 1 && !placed@.contains(x)) by {
                if before.contains(x) {
                    let k = choose|k: int| 0 <= k < before.len() && before[k] == x;
                    assert(remaining@[k] == x);
                }
                if remaining@.contains(x) && x != v {
                    let k = choose|k: int| 0 <= k < remaining@.len() && remaining@[k] == x;
                    assert(k < before.len());
                    assert(before[k] == x);
                }
                if x == v && !placed@.contains(x) {
                    assert(remaining@[remaining@.len() - 1] == x);
                }
            }
        }
        v += 1;
    }
    let mut tail: Vec<usize> = Vec::new();
    while remaining.len() > 0
        invariant
            n == s.len(),
            s == modules@,
            names@.len() == s.len(),
            forall|i: int| 0 <= i < names@.len() ==> (#[trigger] names@[i])@ == s[i].name(),
            remaining@.no_duplicates(),
            tail@.no_duplicates(),
            forall|x: usize| remaining@.contains(x) ==> !tail@.contains(x),
            forall|x: usize| (#[trigger] remaining@.contains(x) || tail@.contains(x)) <==> (x < n && !placed@.contains(x)),
            forall|x: usize| #[trigger] tail@.contains(x) ==> (x < n && !placed@.contains(x)),
            forall|a: int, b: int| 0 <= a < b < tail@.len() ==> !key_lt(s, tail@[b] as int, tail@[a] as int),
            forall|a: int, r: int| 0 <= a < tail@.len() && 0 <= r < remaining@.len() ==> !key_lt(s, remaining@[r] as int, tail@[a] as int),
        decreases remaining.len(),
    {
        let mut p: usize = 0;
        let mut q: usize = 1;
        assert(remaining@.contains(remaining@[0]));
        proof { lemma_key_lt_irreflexive(s, remaining@[0] as int); }
        while q < remaining.len()
            invariant
                n == s.len(),
                s == modules@,
                names@.len() == s.len(),
                forall|i: int| 0 <= i < names@.len() ==> (#[trigger] names@[i])@ == s[i].name(),
                forall|x: usize| #[trigger] remaining@.contains(x) ==> x < n,
                p < q <= remaining@.len(),
                forall|r: int| 0 <= r < q ==> !key_lt(s, remaining@[r] as int, remaining@[p as int] as int),
            decreases remaining.len() - q,
        {
            assert(remaining@.contains(remaining@[q as int]));
            assert(remaining@.contains(remaining@[p as int]));
            if key_less(modules, names, remaining[q], remaining[p]) {
                proof {
                    assert forall|r: int| 0 <= r < q + 1 implies !key_lt(s, remaining@[r] as int, remaining@[q as int] as int) by {
                        if r == q {
                            lemma_key_lt_irreflexive(s, remaining@[q as int] as int);
                        } else if key_lt(s, remaining@[r] as int, remaining@[q as int] as int) {
                            lemma_key_lt_transitive(s, remaining@[r] as int, remaining@[q as int] as int, remaining@[p as int] as int);
                        }
                    }
                }
                p = q;
            }
            q += 1;
        }
        let ghost rem_before = remaining@;
        let ghost tail_before = tail@;
        let u = remaining.remove(p);
        assert(remaining@ == rem_before.remove(p as int));
        tail.push(u);
        proof {
            assert forall|x: usize| remaining@.contains(x) implies rem_before.contains(x) && x != u by {
                let k = choose|k: int| 0 <= k < remaining@.len() && remaining@[k] == x;
                if k < p {
                    assert(rem_before[k] == x);
                    assert(rem_before[k] != rem_before[p as int]);
                } else {
                    assert(rem_before[k + 1] == x);
                    assert(rem_before[k + 1] != rem_before[p as int]);
                }
            }
            assert forall|x: usize| rem_before.contains(x) && x != u implies remaining@.contains(x) by {
                let k = choose|k: int| 0 <= k < rem_before.len() && rem_before[k] == x;
                if k < p {
                    assert(remaining@[k] == x);
                } else {
                    assert(remaining@[k - 1] == x);
                }
            }
            assert forall|a: int, b: int| 0 <= a < b < remaining@.len() implies remaining@[a] != remaining@[b] by {
                let a2 = if a < p { a } else { a + 1 };
                let b2 = if b < p { b } else { b + 1 };
                assert(remaining@[a] == rem_before[a2]);
                assert(remaining@[b] == rem_before[b2]);
            }
            assert forall|x: usize| tail@.contains(x) <==> (tail_before.contains(x) || x == u) by {
                if tail_before.contains(x) {
                    let k = choose|k: int| 0 <= k < tail_before.len() && tail_before[k] == x;
                    assert(tail@[k] == x);
                }
                if tail@.contains(x) && x != u {
                    let k = choose|k: int| 0 <= k < tail@.len() && tail@[k] == x;
                    assert(k < tail_before.len());
                    assert(tail_before[k] == x);
                }
                if x == u {
                    assert(tail@[tail@.len() - 1] == x);
                }
            }
            assert(rem_before.contains(u));
            assert(!tail_before.contains(u));
            assert forall|a: int, b: int| 0 <= a < b < tail@.len() implies tail@[a] != tail@[b] by {
                if b == tail@.len() - 1 {
                    assert(tail@[a] == tail_before[a]);
                }
            }
            assert forall|a: int, b: int| 0 <= a < b < tail@.len() implies !key_lt(s, tail@[b] as int, tail@[a] as int) by {
                if b == tail@.len() - 1 {
                    assert(tail@[a] == tail_before[a]);
                    assert(rem_before[p as int] == u);
                }
            }
            assert forall|a: int, r: int| 0 <= a < tail@.len() && 0 <= r < remaining@.len() implies !key_lt(s, remaining@[r] as int, tail@[a] as int) by {
                let x = remaining@[r];
                assert(remaining@.contains(x));
                assert(rem_before.contains(x));
                let k = choose|k: int| 0 <= k < rem_before.len() && rem_before[k] == x;
                if a == tail@.len() - 1 {
                    assert(!key_lt(s, rem_before[k] as int, rem_before[p as int] as int));
                } else {
                    assert(tail@[a] == tail_before[a]);
                }
            }
            assert forall|x: usize| remaining@.contains(x) implies !tail@.contains(x) by {
                assert(rem_before.contains(x) && x != u);
            }
            assert forall|x: usize| (#[trigger] remaining@.contains(x) || tail@.contains(x)) <==> (x < n && !placed@.contains(x)) by {
                if rem_before.contains(x) && x != u {
                    assert(remaining@.contains(x));
                }
            }
        }
    }
    proof {
        assert forall|x: usize| #[trigger] tail@.contains(x) <==> (x < s.len() && !placed@.contains(x)) by {
            assert(!remaining@.contains(x));
        }
    }
    tail
}

proof fn lemma_key_lt_same(s1: Seq<DiscoveredModule>, s2: Seq<DiscoveredModule>, a: int, b: int)
    requires
        0 <= a < s1.len(),
        0 <= b < s1.len(),
        s1.len() == s2.len(),
        same_but_status(s1[a], s2[a]),
        same_but_status(s1[b], s2[b]),
    ensures
        key_lt(s1, a, b) == key_lt(s2, a, b),
{
}

/// The status of module `i`, left out of the dependency-first placement,
/// after the cycle check: a module on a cycle reports the cycle; any other
/// keeps the status it had, for the dependency check to judge.
pub open spec fn cycle_status(before: ModuleStatus, after: ModuleStatus, adj: Seq<Seq<usize>>, cyclic: Seq<bool>, names: Seq<Seq<char>>, i: int) -> bool {
    if on_cycle(adj, cyclic, i) {
        after matches ModuleStatus::SkippedCycle(p) && cycle_path(adj, cyclic, names, i, p@.map_values(|x: String| x@))
    } else {
        after == before
    }
}

/// Marks the modules left out of `order` that lie on a cycle as caught in
/// it, and appends all modules left out to the order.
fn handle_cycles(
    modules: &mut Vec<DiscoveredModule>,
    names: &Vec<Vec<char>>,
    adjacency: &Vec<Vec<usize>>,
    order: Vec<usize>,
) -> (full: Vec<usize>)
    requires
        names@.len() == old(modules)@.len(),
        forall|i: int| 0 <= i < names@.len() ==> (#[trigger] names@[i])@ == old(modules)@[i].name(),
        adjacency@.len() == old(modules)@.len(),
        forall|j: int, t: int| 0 <= j < adjacency@.len() && 0 <= t < adjacency@[j]@.len() ==> #[trigger] adjacency@[j]@[t] < adjacency@.len(),
    ensures
        final(modules)@.len() == old(modules)@.len(),
        forall|i: int| 0 <= i < old(modules)@.len() ==> same_but_status(old(modules)@[i], #[trigger] final(modules)@[i]),
        forall|i: usize| i < old(modules)@.len() && order@.contains(i) ==> (#[trigger] final(modules)@[i as int]).status == old(modules)@[i as int].status,
        forall|i: usize| i < old(modules)@.len() && !order@.contains(i) ==> cycle_status(old(modules)@[i as int].status,
            (#[trigger] final(modules)@[i as int]).status, adj_view(adjacency@), left_out(old(modules)@.len(), order@),
            module_names(old(modules)@), i as int),
        full@.len() >= order@.len(),
        full@.take(order@.len() as int) == order@,
        sorted_rest(old(modules)@, order@, full@.skip(order@.len() as int)),
{
    let n = modules.len();
    let ghost start = modules@;
    let mut is_cyclic: Vec<bool> = Vec::new();
    let mut v: usize = 0;
    while v < n
        invariant
            v <= n,
            is_cyclic@.len() == v,
            forall|x: int| 0 <= x < v ==> is_cyclic@[x] == !order@.contains(x as usize),
        decreases n - v,
    {
        is_cyclic.push(!contains_index(&order, v));
        v += 1;
    }
    assert(is_cyclic@ == left_out(n as nat, order@));
    let mut v: usize = 0;
    while v < n
        invariant
            n == start.len(),
            modules@.len() == n,
            v <= n,
            is_cyclic@ == left_out(n as nat, order@),
            adjacency@.len() == n,
            forall|j: int, t: int| 0 <= j < adjacency@.len() && 0 <= t < adjacency@[j]@.len() ==> #[trigger] adjacency@[j]@[t] < adjacency@.len(),
            forall|i: int| 0 <= i < n ==> same_but_status(start[i], #[trigger] modules@[i]),
            module_names(modules@) == module_names(start),
            forall|i: usize| i < n && (order@.contains(i) || i >= v) ==> (#[trigger] modules@[i as int]).status == start[i as int].status,
            forall|i: usize| i < v && !order@.contains(i) ==> cycle_status(start[i as int].status,
                (#[trigger] modules@[i as int]).status, adj_view(adjacency@), left_out(n as nat, order@), module_names(start), i as int),
        decreases n - v,
    {
        if is_cyclic[v] {
            if let Some(path) = find_path(v, adjacency, &is_cyclic, modules) {
                modules[v].status = ModuleStatus::SkippedCycle(path);
            }
            proof {
                assert(module_names(modules@) =~= module_names(start)) by {
                    assert forall|i: int| 0 <= i < n implies module_names(modules@)[i] == module_names(start)[i] by {
                        assert(same_but_status(start[i], modules@[i]));
                    }
                }
            }
        }
        v += 1;
    }
    let tail = sort_rest(modules, names, &order);
    proof {
        assert(module_names(modules@) =~= module_names(start));
    }
    let mut full = order;
    let ghost order_view = full@;
    let mut t: usize = 0;
    while t < tail.len()
        invariant
            t <= tail@.len(),
            full@ == order_view + tail@.take(t as int),
        decreases tail.len() - t,
    {
        full.push(tail[t]);
        assert(tail@.take(t + 1) == tail@.take(t as int).push(tail@[t as int]));
        t += 1;
    }
    proof {
        assert(tail@.take(tail@.len() as int) == tail@);
        assert(full@.take(order_view.len() as int) =~= order_view);
        assert(full@.skip(order_view.len() as int) =~= tail@);
        assert(sorted_rest(modules@, order_view, tail@));
        assert forall|a: int, b: int| 0 <= a < b < tail@.len() implies !key_lt(start, tail@[b] as int, tail@[a] as int) by {
            let x = tail@[a];
            let y = tail@[b];
            assert(tail@.contains(x) && tail@.contains(y));
            assert(same_but_status(start[x as int], modules@[x as int]));
            assert(same_but_status(start[y as int], modules@[y as int]));
            lemma_key_lt_same(start, modules@, y as int, x as int);
        }
    }
    full
}


/// Puts the modules in the given order.
fn reorder(modules: &mut Vec<DiscoveredModule>, order: Vec<usize>)
    requires
        order@.len() == old(modules)@.len(),
        order@.no_duplicates(),
        forall|k: int| 0 <= k < order@.len() ==> order@[k] < order@.len(),
    ensures
        final(modules)@.len() == old(modules)@.len(),
        forall|k: int| 0 <= k < order@.len() ==> #[trigger] final(modules)@[k] == old(modules)@[order@[k] as int],
{
    let n = modules.len();
    let ghost orig = modules@;
    let mut slots: Vec<Option<DiscoveredModule>> = Vec::new();
    while modules.len() > 0
        invariant
            orig.len() == n,
            modules@.len() + slots@.len() == n,
            modules@ == orig.take(modules@.len() as int),
            forall|j: int| 0 <= j < slots@.len() ==> #[trigger] slots@[j] == Some(orig[n - 1 - j]),
        decreases modules.len(),
    {
        let m = modules.pop().unwrap();
        slots.push(Some(m));
    }
    let mut k: usize = 0;
    while k < n
        invariant
            orig.len() == n,
            slots@.len() == n,
            order@.len() == n,
            order@.no_duplicates(),
            forall|t: int| 0 <= t < order@.len() ==> order@[t] < n,
            k <= n,
            modules@.len() == k,
            forall|t: int| 0 <= t < k ==> #[trigger] modules@[t] == orig[order@[t] as int],
            forall|j: int| 0 <= j < n ==> (!order@.take(k as int).contains((n - 1 - j) as usize) ==> #[trigger] slots@[j] == Some(orig[n - 1 - j])),
        decreases n - k,
    {
        let idx = order[k];
        let slot = n - 1 - idx;
        assert(!order@.take(k as int).contains(idx)) by {
            if order@.take(k as int).contains(idx) {
                let t = choose|t: int| 0 <= t < k && order@.take(k as int)[t] == idx;
                assert(order@[t] == order@[k as int]);
            }
        }
        assert(slots@[slot as int] == Some(orig[idx as int]));
        let mut taken: Option<DiscoveredModule> = None;
        std::mem::swap(&mut taken, &mut slots[slot]);
        modules.push(taken.unwrap());
        proof {
            assert forall|j: int| 0 <= j < n implies (!order@.take(k + 1).contains((n - 1 - j) as usize) ==> #[trigger] slots@[j] == Some(orig[n - 1 - j])) by {
                if !order@.take(k + 1).contains((n - 1 - j) as usize) {
                    assert(order@.take(k + 1)[k as int] == idx);
                    assert(j != slot);
                    if order@.take(k as int).contains((n - 1 - j) as usize) {
                        let t = choose|t: int| 0 <= t < k && order@.take(k as int)[t] == (n - 1 - j) as usize;
                        assert(order@.take(k + 1)[t] == (n - 1 - j) as usize);
                    }
                }
            }
        }
        k += 1;
    }
}

/// A witness that `new` is the ordered form of `old`: `marked` is `old` with
/// repeated dependency entries reported, `order` lists every module once,
/// its first `placed` entries are the dependency-first placement, the rest
/// are the modules left out of it in key order, and `new` holds the modules
/// in that order, those of them that lie on a cycle reporting it.
pub open spec fn sort_witness(
    old: Seq<DiscoveredModule>,
    marked: Seq<DiscoveredModule>,
    order: Seq<usize>,
    placed: int,
    new: Seq<DiscoveredModule>,
) -> bool {
    &&& marked.len() == old.len()
    &&& forall|i: int| 0 <= i < old.len() ==> duplicates_marked(#[trigger] old[i], marked[i])
    &&& order.len() == old.len()
    &&& order.no_duplicates()
    &&& forall|k: int| 0 <= k < order.len() ==> order[k] < old.len()
    &&& forall|x: usize| x < old.len() ==> #[trigger] order.contains(x)
    &&& 0 <= placed <= order.len()
    &&& kahn_order(marked, order.take(placed))
    &&& sorted_rest(marked, order.take(placed), order.skip(placed))
    &&& new.len() == old.len()
    &&& forall|k: int| 0 <= k < new.len() ==> same_but_status(marked[order[k] as int], #[trigger] new[k])
    &&& forall|k: int| 0 <= k < placed ==> (#[trigger] new[k]).status == marked[order[k] as int].status
    &&& forall|k: int| placed <= k < new.len() ==> cycle_status(marked[order[k] as int].status, (#[trigger] new[k]).status,
        graph_adjacency(marked), left_out(old.len(), order.take(placed)), module_names(marked), order[k] as int)
}

/// The modules ordered for loading.
pub open spec fn sort_outcome(old: Seq<DiscoveredModule>, new: Seq<DiscoveredModule>) -> bool {
    exists|marked: Seq<DiscoveredModule>, order: Seq<usize>, placed: int| sort_witness(old, marked, order, placed, new)
}


/// A list of distinct indices below `n` that holds each of them has
/// exactly `n` entries.
proof fn lemma_permutation_len(s: Seq<usize>, n: nat)
    requires
        s.no_duplicates(),
        forall|k: int| 0 <= k < s.len() ==> s[k] < n,
        forall|x: usize| x < n ==> s.contains(x),
        n <= usize::MAX,
    ensures
        s.len() == n,
{
    let t = s.map_values(|x: usize| x as int);
    assert(t.no_duplicates()) by {
        assert forall|a: int, b: int| 0 <= a < t.len() && 0 <= b < t.len() && a != b implies t[a] != t[b] by {
            assert(s[a] != s[b]);
        }
    }
    t.unique_seq_to_set();
    vstd::set_lib::lemma_int_range(0, n as int);
    assert(t.to_set() =~= vstd::set_lib::set_int_range(0, n as int)) by {
        assert forall|x: int| t.to_set().contains(x) <==> vstd::set_lib::set_int_range(0, n as int).contains(x) by {
            if t.to_set().contains(x) {
                assert(t.contains(x));
                let k = choose|k: int| 0 <= k < t.len() && t[k] == x;
                assert(s[k] < n);
            }
            if 0 <= x < n {
                assert(s.contains(x as usize));
                let k = choose|k: int| 0 <= k < s.len() && s[k] == x as usize;
                assert(t[k] == x);
                assert(t.contains(x));
            }
        }
    }
}

/// Orders modules for loading.
pub struct Sorter;

impl Sorter {
    /// Puts the modules in load order: every module after the modules it
    /// depends on, and among the modules free to go the first by directory,
    /// prefix and name; the modules that cannot be placed so, because they
    /// lie on a dependency cycle or wait on one, come last, and those on a
    /// cycle are marked as such. Modules that list a dependency twice are
    /// marked too.
    pub fn sort_modules(modules: &mut Vec<DiscoveredModule>)
        ensures
            sort_outcome(old(modules)@, final(modules)@),
    {
        let ghost original = modules@;
        if modules.len() == 0 {
            proof {
                let order = Seq::<usize>::empty();
                assert(order.take(0) =~= order);
                assert(order.skip(0) =~= order);
                assert(sort_witness(original, original, order, 0, modules@));
            }
            return;
        }
        validate_dupes(modules);
        let ghost marked = modules@;
        let n = modules.len();
        let names = module_name_chars(modules);
        let (indegree, adjacency) = dependency_graph(modules, &names);
        proof {
            assert forall|j: int, t: int| 0 <= j < adjacency@.len() && 0 <= t < adjacency@[j]@.len() implies #[trigger] adjacency@[j]@[t] < adjacency@.len() by {
                lemma_successors(marked, j, n as int);
                assert(successors(marked, j, n as int).contains(adjacency@[j]@[t]));
            }
            assert(adj_view(adjacency@) =~= graph_adjacency(marked));
        }
        let placed = kahn_sort(modules, &names, indegree, &adjacency);
        let ghost kahn = placed@;
        // Appends nothing when every module was placed.
        let full = handle_cycles(modules, &names, &adjacency, placed);
        let ghost after = modules@;
        let ghost fv = full@;
        proof {
            assert(fv.take(kahn.len() as int) == kahn);
            assert(fv.len() >= kahn.len());
            let tail = fv.skip(kahn.len() as int);
            assert forall|i: int| 0 <= i < fv.len() implies fv[i] == (kahn + tail)[i] by {
                if i < kahn.len() {
                    assert(fv.take(kahn.len() as int)[i] == fv[i]);
                    assert(kahn[i] == fv[i]);
                } else {
                    assert(tail[i - kahn.len()] == fv[i]);
                }
            }
            assert(fv =~= kahn + tail);
            assert forall|x: usize| #[trigger] fv.contains(x) <==> x < n by {
                if x < n {
                    if kahn.contains(x) {
                        let k = choose|k: int| 0 <= k < kahn.len() && kahn[k] == x;
                        assert(fv[k] == x);
                    } else {
                        assert(tail.contains(x));
                        let k = choose|k: int| 0 <= k < tail.len() && tail[k] == x;
                        assert(fv[kahn.len() + k] == x);
                    }
                }
                if fv.contains(x) {
                    let k = choose|k: int| 0 <= k < fv.len() && fv[k] == x;
                    if k < kahn.len() {
                        assert(kahn[k] == x);
                    } else {
                        assert(tail[k - kahn.len()] == x);
                        assert(tail.contains(x));
                    }
                }
            }
            assert forall|a: int, b: int| 0 <= a < b < fv.len() implies fv[a] != fv[b] by {
                if b < kahn.len() {
                    assert(kahn[a] != kahn[b]);
                } else if a >= kahn.len() {
                    assert(tail[a - kahn.len()] != tail[b - kahn.len()]);
                } else {
                    assert(tail.contains(fv[b]));
                    assert(kahn.contains(fv[a]));
                }
            }
            assert forall|k: int| 0 <= k < fv.len() implies fv[k] < n by {
                assert(fv.contains(fv[k]));
            }
            lemma_permutation_len(fv, n as nat);
        }
        reorder(modules, full);
        proof {
            let new = modules@;
            assert forall|k: int| 0 <= k < new.len() implies same_but_status(marked[fv[k] as int], #[trigger] new[k]) by {
                assert(new[k] == after[fv[k] as int]);
            }
            assert forall|k: int| 0 <= k < kahn.len() implies (#[trigger] new[k]).status == marked[fv[k] as int].status by {
                assert(new[k] == after[fv[k] as int]);
                assert(fv[k] == kahn[k]);
                assert(kahn.contains(fv[k]));
            }
            assert forall|k: int| kahn.len() <= k < new.len() implies cycle_status(marked[fv[k] as int].status, (#[trigger] new[k]).status,
                graph_adjacency(marked), left_out(original.len(), fv.take(kahn.len() as int)), module_names(marked), fv[k] as int) by {
                assert(new[k] == after[fv[k] as int]);
                let tail = fv.skip(kahn.len() as int);
                assert(fv[k] == tail[k - kahn.len()]);
                assert(tail.contains(fv[k]));
                assert(!kahn.contains(fv[k]));
            }
            assert(sort_witness(original, marked, fv, kahn.len() as int, new));
        }
    }
}

} // verus!
