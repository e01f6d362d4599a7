//! Removing modules: finding the module to remove, the modules that its
//! removal leaves without a user, and the new names of the directories
//! that remain.
use vstd::prelude::*;
use crate::types::DiscoveredModule;
use crate::graph::{dep_name, dep_count, module_name_chars};
use crate::validator::string_views;
use crate::paths::{path_parent, parent_of};
use crate::text::{chars_of, chars_equal, push_str, str_equal, string_from_chars, string_from_range, find_from,
    first_index_of, lemma_first_index_is, lemma_first_index_none, decimal2, decimal2_string};

verus! {

/// The views of a list of character vectors.
pub open spec fn chars_views(v: Seq<Vec<char>>) -> Seq<Seq<char>> {
    v.map_values(|w: Vec<char>| w@)
}

/// How many of the first `hi` dependency entries of `m` name `x`.
pub open spec fn mentions_upto(m: DiscoveredModule, x: Seq<char>, hi: int) -> nat
    decreases hi,
{
    if hi <= 0 {
        0
    } else {
        mentions_upto(m, x, hi - 1) + if dep_name(m, hi - 1) == x { 1nat } else { 0nat }
    }
}

/// How many dependency entries of `m` name `x`.
pub open spec fn mentions(m: DiscoveredModule, x: Seq<char>) -> nat {
    mentions_upto(m, x, dep_count(m))
}

/// How many dependency entries of the first `hi` modules name `x`.
pub open spec fn in_degree_upto(s: Seq<DiscoveredModule>, x: Seq<char>, hi: int) -> nat
    decreases hi,
{
    if hi <= 0 {
        0
    } else {
        in_degree_upto(s, x, hi - 1) + mentions(s[hi - 1], x)
    }
}

/// How many dependency entries, over all modules, name `x`.
pub open spec fn in_degree(s: Seq<DiscoveredModule>, x: Seq<char>) -> nat {
    in_degree_upto(s, x, s.len() as int)
}

/// The index of the first module called `name` from `lo` on, or -1.
pub open spec fn first_named_from(s: Seq<DiscoveredModule>, name: Seq<char>, lo: int) -> int
    decreases s.len() - lo,
{
    if lo < 0 || lo >= s.len() {
        -1
    } else if s[lo].name() == name {
        lo
    } else {
        first_named_from(s, name, lo + 1)
    }
}

/// The index of the first module called `name`, or -1.
pub open spec fn first_named(s: Seq<DiscoveredModule>, name: Seq<char>) -> int {
    first_named_from(s, name, 0)
}

/// The dependency entries naming `x` that removing the module called `p`
/// (the first of that name) takes away.
pub open spec fn release_of(s: Seq<DiscoveredModule>, p: Seq<char>, x: Seq<char>) -> nat {
    let f = first_named(s, p);
    if 0 <= f < s.len() { mentions(s[f], x) } else { 0 }
}

/// The dependency entries naming `x` that removing the modules named in
/// `list`, one removal per entry, takes away.
pub open spec fn released(s: Seq<DiscoveredModule>, list: Seq<Seq<char>>, x: Seq<char>) -> nat
    decreases list.len(),
{
    if list.len() == 0 {
        0
    } else {
        released(s, list.drop_last(), x) + release_of(s, list.last(), x)
    }
}

/// Removing the modules named in `list` leaves `x` without a user: some
/// dependency entries name it, and as many as there are have been taken
/// away.
pub open spec fn orphaned_by(s: Seq<DiscoveredModule>, list: Seq<Seq<char>>, x: Seq<char>) -> bool {
    in_degree(s, x) > 0 && released(s, list, x) >= in_degree(s, x)
}

/// `r` is the list of modules to remove, starting from `start`: `start`
/// itself, then names each of which is left without a user by the removals
/// before it, each once and none of `start`; no name outside `r` is left
/// without a user by them all.
pub open spec fn cascade_outcome(s: Seq<DiscoveredModule>, start: Seq<Seq<char>>, r: Seq<Seq<char>>) -> bool {
    &&& r.len() >= start.len()
    &&& r.subrange(0, start.len() as int) == start
    &&& r.skip(start.len() as int).no_duplicates()
    &&& forall|q: int| start.len() <= q < r.len() ==> !start.contains(#[trigger] r[q])
        && orphaned_by(s, r.take(q), r[q])
    &&& forall|x: Seq<char>| !r.contains(x) ==> !orphaned_by(s, r, x)
}

/// Scanning the dependency entries of module `f`, from the `k`-th on, while
/// cascading, with the modules in `popped` already taken: an entry naming
/// `x` not yet listed lists and stacks `x` when, counting the entries of
/// `popped` and those of `f` up to it, no entry naming `x` is left.
pub open spec fn scan_entries(s: Seq<DiscoveredModule>, f: int, popped: Seq<Seq<char>>, result: Seq<Seq<char>>,
    stack: Seq<Seq<char>>, k: int) -> (Seq<Seq<char>>, Seq<Seq<char>>)
    decreases dep_count(s[f]) - k,
{
    if k < 0 || k >= dep_count(s[f]) {
        (result, stack)
    } else {
        let x = dep_name(s[f], k);
        if !result.contains(x) && released(s, popped, x) + mentions_upto(s[f], x, k + 1) >= in_degree(s, x) {
            scan_entries(s, f, popped, result.push(x), stack.push(x), k + 1)
        } else {
            scan_entries(s, f, popped, result, stack, k + 1)
        }
    }
}

/// The cascade run on: the last name of `stack` is taken, the entries of
/// the first module of that name are scanned, and so on until the stack is
/// empty (or `fuel` runs out).
pub open spec fn cascade_run(s: Seq<DiscoveredModule>, stack: Seq<Seq<char>>, result: Seq<Seq<char>>,
    popped: Seq<Seq<char>>, fuel: nat) -> Seq<Seq<char>>
    decreases fuel,
{
    if fuel == 0 || stack.len() == 0 {
        result
    } else {
        let c = stack.last();
        let f = first_named(s, c);
        let next = if 0 <= f < s.len() {
            scan_entries(s, f, popped, result, stack.drop_last(), 0)
        } else {
            (result, stack.drop_last())
        };
        cascade_run(s, next.1, next.0, popped.push(c), (fuel - 1) as nat)
    }
}

/// The names a removal of `start` lists, in the order it lists them: the
/// names of `start`, then those the stack-driven cascade adds.
pub open spec fn cascade_order(s: Seq<DiscoveredModule>, start: Seq<Seq<char>>) -> Seq<Seq<char>> {
    cascade_run(s, start, start, Seq::empty(), (start.len() + total_entries(s, s.len() as int) + 1) as nat)
}

/// The number of dependency entries, over the first `hi` modules, whose
/// names are not in `names`.
pub open spec fn entries_outside(s: Seq<DiscoveredModule>, names: Seq<Seq<char>>, hi: int) -> nat
    decreases hi,
{
    if hi <= 0 {
        0
    } else {
        entries_outside(s, names, hi - 1) + module_entries_outside(s[hi - 1], names, dep_count(s[hi - 1]))
    }
}

/// The number of the first `hi` dependency entries of `m` whose names are not
/// in `names`.
pub open spec fn module_entries_outside(m: DiscoveredModule, names: Seq<Seq<char>>, hi: int) -> nat
    decreases hi,
{
    if hi <= 0 {
        0
    } else {
        module_entries_outside(m, names, hi - 1) + if names.contains(dep_name(m, hi - 1)) { 0nat } else { 1nat }
    }
}

proof fn lemma_module_entries_outside_push(m: DiscoveredModule, names: Seq<Seq<char>>, x: Seq<char>, hi: int)
    requires
        !names.contains(x),
    ensures
        module_entries_outside(m, names, hi) == module_entries_outside(m, names.push(x), hi) + mentions_upto(m, x, hi),
    decreases hi,
{
    if hi > 0 {
        lemma_module_entries_outside_push(m, names, x, hi - 1);
        let e = dep_name(m, hi - 1);
        if names.push(x).contains(e) && !names.contains(e) {
            let j = choose|j: int| 0 <= j < names.push(x).len() && names.push(x)[j] == e;
            if j < names.len() {
                assert(names[j] == e);
            }
        }
        if names.contains(e) {
            let j = choose|j: int| 0 <= j < names.len() && names[j] == e;
            assert(names.push(x)[j] == e);
        }
        if e == x {
            assert(names.push(x)[names.len() as int] == e);
        }
    }
}

proof fn lemma_entries_outside_push(s: Seq<DiscoveredModule>, names: Seq<Seq<char>>, x: Seq<char>, hi: int)
    requires
        !names.contains(x),
    ensures
        entries_outside(s, names, hi) == entries_outside(s, names.push(x), hi) + in_degree_upto(s, x, hi),
    decreases hi,
{
    if hi > 0 {
        lemma_entries_outside_push(s, names, x, hi - 1);
        lemma_module_entries_outside_push(s[hi - 1], names, x, dep_count(s[hi - 1]));
    }
}

proof fn lemma_released_concat(s: Seq<DiscoveredModule>, a: Seq<Seq<char>>, b: Seq<Seq<char>>, x: Seq<char>)
    ensures
        released(s, a + b, x) == released(s, a, x) + released(s, b, x),
    decreases b.len(),
{
    if b.len() > 0 {
        lemma_released_concat(s, a, b.drop_last(), x);
        assert((a + b).drop_last() == a + b.drop_last());
    } else {
        assert(a + b == a);
    }
}

proof fn lemma_released_single(s: Seq<DiscoveredModule>, c: Seq<char>, x: Seq<char>)
    ensures
        released(s, seq![c], x) == release_of(s, c, x),
{
    assert(seq![c].drop_last() == Seq::<Seq<char>>::empty());
    assert(released(s, Seq::<Seq<char>>::empty(), x) == 0);
}

proof fn lemma_mentions_upto_bound(m: DiscoveredModule, x: Seq<char>, hi: int)
    requires
        0 <= hi <= dep_count(m),
    ensures
        mentions_upto(m, x, hi) <= mentions(m, x),
    decreases dep_count(m) - hi,
{
    if hi < dep_count(m) {
        lemma_mentions_upto_bound(m, x, hi + 1);
    }
}

/// The index of the first module called `name`.
fn find_first_named(names: &Vec<Vec<char>>, name: &Vec<char>, Ghost(s): Ghost<Seq<DiscoveredModule>>) -> (r: Option<usize>)
    requires
        names@.len() == s.len(),
        forall|t: int| 0 <= t < s.len() ==> (#[trigger] names@[t])@ == s[t].name(),
    ensures
        match r {
            Some(i) => i < s.len() && first_named(s, name@) == i,
            None => first_named(s, name@) == -1,
        },
{
    let mut i: usize = 0;
    while i < names.len()
        invariant
            names@.len() == s.len(),
            forall|t: int| 0 <= t < s.len() ==> (#[trigger] names@[t])@ == s[t].name(),
            i <= s.len(),
            first_named(s, name@) == first_named_from(s, name@, i as int),
        decreases names.len() - i,
    {
        if chars_equal(&names[i], name) {
            return Some(i);
        }
        i += 1;
    }
    None
}

/// `min(mentions_upto(m, x, hi), cap)`.
fn count_mentions(m: &DiscoveredModule, x: &Vec<char>, hi: usize, cap: usize) -> (r: usize)
    requires
        hi <= dep_count(*m),
    ensures
        r == if mentions_upto(*m, x@, hi as int) < cap { mentions_upto(*m, x@, hi as int) } else { cap as nat },
{
    let mut c: usize = 0;
    let mut k: usize = 0;
    while k < hi
        invariant
            hi <= dep_count(*m),
            k <= hi,
            c == if mentions_upto(*m, x@, k as int) < cap { mentions_upto(*m, x@, k as int) } else { cap as nat },
        decreases hi - k,
    {
        let e = chars_of(m.manifest.module.deps[k].name.as_str());
        if chars_equal(&e, x) && c < cap {
            c += 1;
        }
        k += 1;
    }
    c
}

/// `min(in_degree(s, x), cap)`.
fn count_in_degree(modules: &Vec<DiscoveredModule>, x: &Vec<char>, cap: usize) -> (r: usize)
    ensures
        r == if in_degree(modules@, x@) < cap { in_degree(modules@, x@) } else { cap as nat },
{
    let mut c: usize = 0;
    let mut i: usize = 0;
    while i < modules.len()
        invariant
            i <= modules@.len(),
            c == if in_degree_upto(modules@, x@, i as int) < cap { in_degree_upto(modules@, x@, i as int) } else { cap as nat },
        decreases modules.len() - i,
    {
        let m = &modules[i];
        let more = count_mentions(m, x, m.manifest.module.deps.len(), cap);
        if more >= cap - c {
            c = cap;
        } else {
            c = c + more;
        }
        i += 1;
    }
    c
}

/// `min(released(s, list, x), cap)`.
fn count_released(
    modules: &Vec<DiscoveredModule>,
    names: &Vec<Vec<char>>,
    list: &Vec<Vec<char>>,
    x: &Vec<char>,
    cap: usize,
) -> (r: usize)
    requires
        names@.len() == modules@.len(),
        forall|t: int| 0 <= t < modules@.len() ==> (#[trigger] names@[t])@ == modules@[t].name(),
    ensures
        r == if released(modules@, chars_views(list@), x@) < cap {
            released(modules@, chars_views(list@), x@)
        } else {
            cap as nat
        },
{
    let ghost lv = chars_views(list@);
    let mut c: usize = 0;
    let mut j: usize = 0;
    while j < list.len()
        invariant
            names@.len() == modules@.len(),
            forall|t: int| 0 <= t < modules@.len() ==> (#[trigger] names@[t])@ == modules@[t].name(),
            lv == chars_views(list@),
            j <= list@.len(),
            c == if released(modules@, lv.take(j as int), x@) < cap { released(modules@, lv.take(j as int), x@) } else { cap as nat },
        decreases list.len() - j,
    {
        assert(lv.take(j + 1).drop_last() == lv.take(j as int));
        assert(lv.take(j + 1).last() == list@[j as int]@);
        let more = match find_first_named(names, &list[j], Ghost(modules@)) {
            Some(f) => {
                let m = &modules[f];
                count_mentions(m, x, m.manifest.module.deps.len(), cap)
            },
            None => 0,
        };
        if more >= cap - c {
            c = cap;
        } else {
            c = c + more;
        }
        j += 1;
    }
    assert(lv.take(list@.len() as int) == lv);
    c
}

/// Whether `v` holds `x`.
fn holds_chars(v: &Vec<Vec<char>>, x: &Vec<char>) -> (r: bool)
    ensures
        r == chars_views(v@).contains(x@),
{
    let ghost vv = chars_views(v@);
    let mut j: usize = 0;
    while j < v.len()
        invariant
            vv == chars_views(v@),
            j <= v@.len(),
            forall|t: int| 0 <= t < j ==> vv[t] != x@,
        decreases v.len() - j,
    {
        if chars_equal(&v[j], x) {
            assert(vv[j as int] == x@);
            return true;
        }
        j += 1;
    }
    false
}

/// The total number of dependency entries over the first `hi` modules.
pub open spec fn total_entries(s: Seq<DiscoveredModule>, hi: int) -> nat
    decreases hi,
{
    if hi <= 0 { 0 } else { total_entries(s, hi - 1) + dep_count(s[hi - 1]) as nat }
}

proof fn lemma_entries_outside_bound(s: Seq<DiscoveredModule>, names: Seq<Seq<char>>, hi: int)
    ensures
        entries_outside(s, names, hi) <= total_entries(s, hi),
    decreases hi,
{
    if hi > 0 {
        lemma_entries_outside_bound(s, names, hi - 1);
        lemma_module_entries_outside_bound(s[hi - 1], names, dep_count(s[hi - 1]));
    }
}

proof fn lemma_module_entries_outside_bound(m: DiscoveredModule, names: Seq<Seq<char>>, hi: int)
    ensures
        module_entries_outside(m, names, hi) <= if hi < 0 { 0 } else { hi as nat },
    decreases hi,
{
    if hi > 0 {
        lemma_module_entries_outside_bound(m, names, hi - 1);
    }
}

/// The modules to remove when removing the modules named `start_names`
/// recursively: those names, then each module left without a user once the
/// modules before it are gone (taken in the order of a stack).
pub fn calculate_cascade(modules: &Vec<DiscoveredModule>, start_names: &Vec<String>) -> (r: Vec<String>)
    requires
        total_entries(modules@, modules@.len() as int) < usize::MAX,
    ensures
        cascade_outcome(modules@, string_views(start_names@), string_views(r@)),
        string_views(r@) == cascade_order(modules@, string_views(start_names@)),
{
    let ghost s = modules@;
    let ghost start = string_views(start_names@);
    let names = module_name_chars(modules);
    let mut result: Vec<String> = Vec::new();
    let mut removed: Vec<Vec<char>> = Vec::new();
    let mut stack: Vec<Vec<char>> = Vec::new();
    let mut i: usize = 0;
    while i < start_names.len()
        invariant
            start == string_views(start_names@),
            i <= start_names@.len(),
            string_views(result@) == start.take(i as int),
            chars_views(removed@) == start.take(i as int),
            chars_views(stack@) == start.take(i as int),
        decreases start_names.len() - i,
    {
        let c = chars_of(start_names[i].as_str());
        let ghost before_r = string_views(result@);
        result.push(string_from_chars(&c));
        removed.push(chars_of(start_names[i].as_str()));
        stack.push(c);
        assert(start.take(i + 1) == start.take(i as int).push(start[i as int]));
        assert(string_views(result@) == before_r.push(start[i as int]));
        assert(chars_views(removed@) == start.take(i as int).push(start[i as int]));
        assert(chars_views(stack@) == start.take(i as int).push(start[i as int]));
        i += 1;
    }
    assert(start.take(start.len() as int) == start);
    let mut popped: Vec<Vec<char>> = Vec::new();
    proof {
        assert forall|x: Seq<char>| #[trigger] released(s, chars_views(popped@) + chars_views(stack@), x)
            == released(s, string_views(result@), x) by {
            assert(chars_views(popped@) + chars_views(stack@) == string_views(result@));
        }
    }
    let ghost bound = total_entries(s, s.len() as int);
    proof { lemma_entries_outside_bound(s, chars_views(removed@), s.len() as int); }
    let ghost mut fuel: nat = (start.len() + bound + 1) as nat;
    proof {
        assert(chars_views(popped@) == Seq::<Seq<char>>::empty());
        assert(cascade_run(s, chars_views(stack@), string_views(result@), chars_views(popped@), fuel) == cascade_order(s, start));
    }
    while stack.len() > 0
        invariant
            s == modules@,
            start == string_views(start_names@),
            names@.len() == s.len(),
            forall|t: int| 0 <= t < s.len() ==> (#[trigger] names@[t])@ == s[t].name(),
            string_views(result@).len() >= start.len(),
            string_views(result@).subrange(0, start.len() as int) == start,
            chars_views(removed@) == string_views(result@),
            string_views(result@).skip(start.len() as int).no_duplicates(),
            forall|q: int| start.len() <= q < string_views(result@).len() ==> !start.contains(#[trigger] string_views(result@)[q])
                && orphaned_by(s, string_views(result@).take(q), string_views(result@)[q]),
            forall|x: Seq<char>| #[trigger] released(s, chars_views(popped@) + chars_views(stack@), x)
                == released(s, string_views(result@), x),
            forall|x: Seq<char>| !string_views(result@).contains(x) && in_degree(s, x) > 0
                ==> #[trigger] released(s, chars_views(popped@), x) < in_degree(s, x),
            bound == total_entries(s, s.len() as int),
            bound < usize::MAX,
            entries_outside(s, chars_views(removed@), s.len() as int) <= bound,
            cascade_run(s, chars_views(stack@), string_views(result@), chars_views(popped@), fuel) == cascade_order(s, start),
            fuel >= stack@.len() + entries_outside(s, chars_views(removed@), s.len() as int) + 1,
        decreases 2 * entries_outside(s, chars_views(removed@), s.len() as int) + stack@.len(),
    {
        let ghost eo_before = entries_outside(s, chars_views(removed@), s.len() as int);
        let ghost stack_before = chars_views(stack@);
        let ghost popped_before = chars_views(popped@);
        let ghost result_before = string_views(result@);
        let ghost measure_before = 2 * entries_outside(s, chars_views(removed@), s.len() as int) + stack@.len();
        let cur = stack.pop().unwrap();
        let ghost rest = chars_views(stack@);
        assert(stack_before == rest.push(cur@));
        proof {
            assert forall|x: Seq<char>| #[trigger] released(s, popped_before + seq![cur@] + rest, x) == released(s, result_before, x) by {
                lemma_released_concat(s, popped_before, rest.push(cur@), x);
                lemma_released_concat(s, popped_before + seq![cur@], rest, x);
                lemma_released_concat(s, popped_before, seq![cur@], x);
                lemma_released_concat(s, rest, seq![cur@], x);
                assert(rest + seq![cur@] == rest.push(cur@));
                assert(seq![cur@].drop_last() == Seq::<Seq<char>>::empty());
            }
        }
        let found = find_first_named(&names, &cur, Ghost(s));
        let ghost g: nat = match found { Some(f) => dep_count(s[f as int]) as nat, None => 0 };
        if let Some(f) = found {
            let m = &modules[f];
            let deps = &m.manifest.module.deps;
            let mut k: usize = 0;
            while k < deps.len()
                invariant
                    s == modules@,
                    f < s.len(),
                    *m == s[f as int],
                    deps@ == m.manifest.module.deps@,
                    first_named(s, cur@) == f,
                    start == string_views(start_names@),
                    names@.len() == s.len(),
                    forall|t: int| 0 <= t < s.len() ==> (#[trigger] names@[t])@ == s[t].name(),
                    k <= deps@.len(),
                    string_views(result@).len() >= start.len(),
                    string_views(result@).subrange(0, start.len() as int) == start,
                    chars_views(removed@) == string_views(result@),
                    string_views(result@).skip(start.len() as int).no_duplicates(),
                    forall|q: int| start.len() <= q < string_views(result@).len() ==> !start.contains(#[trigger] string_views(result@)[q])
                        && orphaned_by(s, string_views(result@).take(q), string_views(result@)[q]),
                    forall|x: Seq<char>| #[trigger] released(s, popped_before + seq![cur@] + chars_views(stack@), x)
                        == released(s, string_views(result@), x),
                    forall|x: Seq<char>| !string_views(result@).contains(x) && in_degree(s, x) > 0
                        ==> released(s, popped_before, x) + #[trigger] mentions_upto(s[f as int], x, k as int) < in_degree(s, x),
                    chars_views(popped@) == popped_before,
                    bound == total_entries(s, s.len() as int),
                    bound < usize::MAX,
                    entries_outside(s, chars_views(removed@), s.len() as int) <= bound,
                    2 * entries_outside(s, chars_views(removed@), s.len() as int) + stack@.len() < measure_before,
                    scan_entries(s, f as int, popped_before, string_views(result@), chars_views(stack@), k as int)
                        == scan_entries(s, f as int, popped_before, result_before, rest, 0),
                    stack@.len() >= rest.len(),
                    entries_outside(s, chars_views(removed@), s.len() as int) + (stack@.len() - rest.len()) <= eo_before,
                decreases deps.len() - k,
            {
                let x = chars_of(deps[k].name.as_str());
                assert(x@ == dep_name(s[f as int], k as int));
                let ghost stack_pre = chars_views(stack@);
                let ghost eo_pre = entries_outside(s, chars_views(removed@), s.len() as int);
                let deg = count_in_degree(modules, &x, usize::MAX);
                proof {
                    lemma_in_degree_bound(s, x@);
                }
                let rel = count_released(modules, &names, &popped, &x, deg);
                let part = count_mentions(m, &x, k + 1, deg);
                let ghost rv = string_views(result@);
                let listed = holds_chars(&removed, &x);
                let add = !listed && (rel >= deg || part >= deg - rel);
                if add {
                    proof {
                        lemma_mentions_upto_bound(s[f as int], x@, k + 1);
                        lemma_released_concat(s, popped_before, seq![cur@], x@);
                        lemma_released_concat(s, popped_before + seq![cur@], chars_views(stack@), x@);
                        lemma_released_single(s, cur@, x@);
                        assert(released(s, rv, x@) >= in_degree(s, x@));
                        lemma_entries_outside_push(s, chars_views(removed@), x@, s.len() as int);
                        assert(in_degree(s, x@) > 0) by {
                            lemma_mention_in_degree(s, f as int, k as int);
                        }
                    }
                    let ghost removed_before = chars_views(removed@);
                    let ghost stack_mid = chars_views(stack@);
                    result.push(string_from_chars(&x));
                    removed.push(x.clone());
                    stack.push(x);
                    proof {
                        let nv = string_views(result@);
                        assert(nv == rv.push(x@));
                        assert(chars_views(removed@) == removed_before.push(x@));
                        assert(nv.subrange(0, start.len() as int) == rv.subrange(0, start.len() as int));
                        assert(nv.skip(start.len() as int) == rv.skip(start.len() as int).push(x@));
                        assert(!rv.contains(x@));
                        assert(!start.contains(x@)) by {
                            if start.contains(x@) {
                                let j = choose|j: int| 0 <= j < start.len() && start[j] == x@;
                                assert(rv.subrange(0, start.len() as int)[j] == x@);
                                assert(rv[j] == x@);
                            }
                        }
                        assert(!rv.skip(start.len() as int).contains(x@)) by {
                            if rv.skip(start.len() as int).contains(x@) {
                                let j = choose|j: int| 0 <= j < rv.skip(start.len() as int).len() && rv.skip(start.len() as int)[j] == x@;
                                assert(rv[start.len() + j] == x@);
                            }
                        }
                        assert(nv.take(rv.len() as int) == rv);
                        assert forall|q: int| start.len() <= q < nv.len() implies !start.contains(#[trigger] nv[q])
                            && orphaned_by(s, nv.take(q), nv[q]) by {
                            if q < rv.len() {
                                assert(nv[q] == rv[q]);
                                assert(nv.take(q) == rv.take(q));
                            }
                        }
                        assert(chars_views(stack@) == stack_mid.push(x@));
                        let a = popped_before + seq![cur@] + stack_mid;
                        assert(popped_before + seq![cur@] + stack_mid.push(x@) == a.push(x@));
                        assert(a.push(x@).drop_last() == a);
                        assert(nv.drop_last() == rv);
                        assert forall|y: Seq<char>| #[trigger] released(s, popped_before + seq![cur@] + chars_views(stack@), y)
                            == released(s, nv, y) by {
                            assert(released(s, a, y) == released(s, rv, y));
                        }
                    }
                } else {
                    proof {
                        if !string_views(result@).contains(x@) {
                            lemma_mentions_upto_bound(s[f as int], x@, k + 1);
                            lemma_released_concat(s, popped_before, seq![cur@], x@);
                            lemma_released_concat(s, popped_before + seq![cur@], chars_views(stack@), x@);
                            lemma_released_single(s, cur@, x@);
                        }
                    }
                }
                proof {
                    lemma_in_degree_bound(s, x@);
                    let cond = !rv.contains(x@) && released(s, popped_before, x@) + mentions_upto(s[f as int], x@, k + 1) >= in_degree(s, x@);
                    assert(deg == in_degree(s, x@));
                    assert(add == cond);
                    assert(scan_entries(s, f as int, popped_before, rv, stack_pre, k as int) == if cond {
                        scan_entries(s, f as int, popped_before, rv.push(x@), stack_pre.push(x@), k + 1)
                    } else {
                        scan_entries(s, f as int, popped_before, rv, stack_pre, k + 1)
                    });
                    if add {
                        assert(string_views(result@) == rv.push(x@));
                        assert(chars_views(stack@) == stack_pre.push(x@));
                        assert(in_degree_upto(s, x@, s.len() as int) == in_degree(s, x@));
                    } else {
                        assert(string_views(result@) == rv);
                        assert(chars_views(stack@) == stack_pre);
                    }
                    assert forall|y: Seq<char>| !string_views(result@).contains(y) && in_degree(s, y) > 0
                        implies released(s, popped_before, y) + #[trigger] mentions_upto(s[f as int], y, k + 1) < in_degree(s, y) by {
                        assert(mentions_upto(s[f as int], y, k + 1) == mentions_upto(s[f as int], y, k as int)
                            + if dep_name(s[f as int], k as int) == y { 1nat } else { 0nat });
                        assert(!rv.contains(y)) by {
                            if rv.contains(y) {
                                let j = choose|j: int| 0 <= j < rv.len() && rv[j] == y;
                                assert(string_views(result@)[j] == y);
                            }
                        }
                        assert(released(s, popped_before, y) + mentions_upto(s[f as int], y, k as int) < in_degree(s, y));
                        if y == x@ && add {
                            assert(string_views(result@)[rv.len() as int] == x@);
                        }
                        if y == x@ && !add {
                            assert(!listed);
                            assert(deg == in_degree(s, x@));
                            assert(rel < deg && part < deg - rel);
                        }
                    }
                }
                k += 1;
            }
            proof {
                assert(scan_entries(s, f as int, popped_before, string_views(result@), chars_views(stack@), k as int)
                    == (string_views(result@), chars_views(stack@)));
            }
        }
        proof {
            let next = if found is Some {
                scan_entries(s, first_named(s, cur@), popped_before, result_before, rest, 0)
            } else {
                (result_before, rest)
            };
            assert(next == (string_views(result@), chars_views(stack@)));
            assert(stack_before.last() == cur@);
            assert(stack_before.drop_last() == rest);
            assert(cascade_run(s, stack_before, result_before, popped_before, fuel)
                == cascade_run(s, chars_views(stack@), string_views(result@), popped_before.push(cur@), (fuel - 1) as nat));
            fuel = (fuel - 1) as nat;
        }
        popped.push(cur);
        proof {
            let pv = chars_views(popped@);
            assert(pv == popped_before.push(cur@));
            assert(popped_before + seq![cur@] == pv);
            assert forall|x: Seq<char>| #[trigger] released(s, pv + chars_views(stack@), x)
                == released(s, string_views(result@), x) by {
                assert(popped_before + seq![cur@] + chars_views(stack@) == pv + chars_views(stack@));
            }
            assert forall|x: Seq<char>| !string_views(result@).contains(x) && in_degree(s, x) > 0
                implies #[trigger] released(s, pv, x) < in_degree(s, x) by {
                assert(pv.drop_last() == popped_before);
                assert(pv.last() == cur@);
                assert(released(s, pv, x) == released(s, popped_before, x) + release_of(s, cur@, x));
                match found {
                    Some(f) => {
                        assert(release_of(s, cur@, x) == mentions_upto(s[f as int], x, dep_count(s[f as int])));
                        assert(released(s, popped_before, x) + mentions_upto(s[f as int], x, dep_count(s[f as int])) < in_degree(s, x));
                    },
                    None => {
                        assert(release_of(s, cur@, x) == 0);
                    },
                }
            }
        }
    }
    proof {
        let rv = string_views(result@);
        assert(chars_views(stack@) == Seq::<Seq<char>>::empty());
        assert(cascade_run(s, chars_views(stack@), rv, chars_views(popped@), fuel) == rv);
        assert(chars_views(popped@) + chars_views(stack@) == chars_views(popped@));
        assert forall|x: Seq<char>| !rv.contains(x) implies !orphaned_by(s, rv, x) by {
            assert(released(s, chars_views(popped@) + chars_views(stack@), x) == released(s, rv, x));
        }
    }
    result
}

proof fn lemma_mentions_upto_le(m: DiscoveredModule, x: Seq<char>, hi: int)
    ensures
        mentions_upto(m, x, hi) <= if hi < 0 { 0 } else { hi as nat },
    decreases hi,
{
    if hi > 0 {
        lemma_mentions_upto_le(m, x, hi - 1);
    }
}

proof fn lemma_in_degree_upto_bound(s: Seq<DiscoveredModule>, x: Seq<char>, hi: int)
    requires
        hi <= s.len(),
    ensures
        in_degree_upto(s, x, hi) <= total_entries(s, hi),
    decreases hi,
{
    if hi > 0 {
        lemma_in_degree_upto_bound(s, x, hi - 1);
        lemma_mentions_upto_le(s[hi - 1], x, dep_count(s[hi - 1]));
    }
}

proof fn lemma_in_degree_bound(s: Seq<DiscoveredModule>, x: Seq<char>)
    ensures
        in_degree(s, x) <= total_entries(s, s.len() as int),
{
    lemma_in_degree_upto_bound(s, x, s.len() as int);
}

proof fn lemma_mentions_pos(m: DiscoveredModule, k: int, hi: int)
    requires
        0 <= k < hi,
    ensures
        mentions_upto(m, dep_name(m, k), hi) >= 1,
    decreases hi,
{
    if k < hi - 1 {
        lemma_mentions_pos(m, k, hi - 1);
    }
}

proof fn lemma_in_degree_ge(s: Seq<DiscoveredModule>, x: Seq<char>, f: int, hi: int)
    requires
        0 <= f < hi,
    ensures
        in_degree_upto(s, x, hi) >= mentions(s[f], x),
    decreases hi,
{
    if f < hi - 1 {
        lemma_in_degree_ge(s, x, f, hi - 1);
    }
}

proof fn lemma_mention_in_degree(s: Seq<DiscoveredModule>, f: int, k: int)
    requires
        0 <= f < s.len(),
        0 <= k < dep_count(s[f]),
    ensures
        in_degree(s, dep_name(s[f], k)) > 0,
{
    lemma_mentions_pos(s[f], k, dep_count(s[f]));
    lemma_in_degree_ge(s, dep_name(s[f], k), f, s.len() as int);
}

/// Module `m` is the one asked for: it has the name, and lives in the
/// directory `filter` when one is given.
pub open spec fn is_target(m: DiscoveredModule, name: Seq<char>, filter: Option<Seq<char>>) -> bool {
    &&& m.name() == name
    &&& match filter {
        Some(f) => path_parent(m.path@) == Some(f),
        None => true,
    }
}

/// The first module from `lo` on that is the one asked for, or -1.
pub open spec fn first_target_from(s: Seq<DiscoveredModule>, name: Seq<char>, filter: Option<Seq<char>>, lo: int) -> int
    decreases s.len() - lo,
{
    if lo < 0 || lo >= s.len() {
        -1
    } else if is_target(s[lo], name, filter) {
        lo
    } else {
        first_target_from(s, name, filter, lo + 1)
    }
}

/// The message for a module that was not found.
pub open spec fn not_found_message(name: Seq<char>, filter: Option<Seq<char>>) -> Seq<char> {
    match filter {
        Some(f) => "Module '"@ + name + "' not found in '"@ + f + "'."@,
        None => "Module '"@ + name + "' not found."@,
    }
}

/// The module to remove: the first called `module_name`, in the directory
/// `directory_filter` when one is given (both paths in normal form).
pub fn target_module<'a>(modules: &'a Vec<DiscoveredModule>, module_name: &str, directory_filter: &Option<String>)
    -> (r: Result<&'a DiscoveredModule, String>)
    ensures
        match r {
            Ok(m) => {
                let i = first_target_from(modules@, module_name@, crate::install::opt_view(*directory_filter), 0);
                0 <= i < modules@.len() && *m == modules@[i]
            },
            Err(e) => first_target_from(modules@, module_name@, crate::install::opt_view(*directory_filter), 0) == -1
                && e@ == not_found_message(module_name@, crate::install::opt_view(*directory_filter)),
        },
{
    let ghost filter = crate::install::opt_view(*directory_filter);
    let mut i: usize = 0;
    while i < modules.len()
        invariant
            i <= modules@.len(),
            filter == crate::install::opt_view(*directory_filter),
            first_target_from(modules@, module_name@, filter, 0) == first_target_from(modules@, module_name@, filter, i as int),
        decreases modules.len() - i,
    {
        let m = &modules[i];
        let mut hit = str_equal(m.manifest.module.name.as_str(), module_name);
        if hit {
            if let Some(f) = directory_filter {
                hit = match parent_of(m.path.as_str()) {
                    Some(p) => str_equal(p.as_str(), f.as_str()),
                    None => false,
                };
            }
        }
        if hit {
            return Ok(m);
        }
        i += 1;
    }
    let mut msg = String::new();
    push_str(&mut msg, "Module '");
    push_str(&mut msg, module_name);
    match directory_filter {
        Some(f) => {
            push_str(&mut msg, "' not found in '");
            push_str(&mut msg, f.as_str());
            push_str(&mut msg, "'.");
        },
        None => {
            push_str(&mut msg, "' not found.");
        },
    }
    Err(msg)
}

/// The part of a directory name after its first `_`, or all of it.
pub open spec fn name_suffix(s: Seq<char>) -> Seq<char> {
    let k = first_index_of(s, '_');
    if k < 0 { s } else { s.subrange(k + 1, s.len() as int) }
}

/// The name the `i`-th module directory (from 0) gets when renumbered.
pub open spec fn renumbered(i: nat, name: Seq<char>) -> Seq<char> {
    decimal2(i + 1) + seq!['_'] + name_suffix(name)
}

/// The new names of the module directories of one directory, given their
/// names in sorted order: the `i`-th (from 0) becomes `{i+1:02}_{rest}`,
/// `rest` being what follows the first `_` of its name (or all of it).
/// Directories whose name does not change get `None`.
pub fn renumber_modules(names: &Vec<String>) -> (r: Vec<Option<String>>)
    requires
        names@.len() < u64::MAX,
    ensures
        r@.len() == names@.len(),
        forall|i: int| 0 <= i < names@.len() ==> match #[trigger] r@[i] {
            Some(n) => n@ == renumbered(i as nat, names@[i]@) && n@ != names@[i]@,
            None => renumbered(i as nat, names@[i]@) == names@[i]@,
        },
{
    let mut r: Vec<Option<String>> = Vec::new();
    let mut i: usize = 0;
    while i < names.len()
        invariant
            names@.len() < u64::MAX,
            i <= names@.len(),
            r@.len() == i,
            forall|j: int| 0 <= j < i ==> match #[trigger] r@[j] {
                Some(n) => n@ == renumbered(j as nat, names@[j]@) && n@ != names@[j]@,
                None => renumbered(j as nat, names@[j]@) == names@[j]@,
            },
        decreases names.len() - i,
    {
        let v = chars_of(names[i].as_str());
        let n = v.len();
        let k = find_from(&v, 0, n, '_');
        proof {
            if k < n {
                lemma_first_index_is(v@, '_', k as int);
            } else {
                lemma_first_index_none(v@, '_');
                assert(v@.subrange(0, n as int) == v@);
            }
        }
        let suffix = if k < n { string_from_range(&v, k + 1, n) } else { string_from_range(&v, 0, n) };
        let mut new_name = decimal2_string((i as u64) + 1);
        crate::text::push_char(&mut new_name, '_');
        push_str(&mut new_name, suffix.as_str());
        assert(new_name@ == renumbered(i as nat, names@[i as int]@));
        if str_equal(new_name.as_str(), names[i].as_str()) {
            r.push(None);
        } else {
            r.push(Some(new_name));
        }
        i += 1;
    }
    r
}

} // verus!
