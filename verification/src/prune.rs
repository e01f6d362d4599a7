//! Pruning: the modules that were installed only as dependencies and that
//! nothing depends on any more.
use vstd::prelude::*;
use crate::types::DiscoveredModule;
use crate::graph::{dep_name, dep_count, module_name_chars};
use crate::remove::chars_views;
use crate::text::{chars_of, chars_equal};

verus! {

/// A module outside `pruned` has a dependency entry naming `x`.
pub open spec fn has_live_user(s: Seq<DiscoveredModule>, pruned: Seq<Seq<char>>, x: Seq<char>) -> bool {
    exists|i: int, k: int| 0 <= i < s.len() && !pruned.contains(s[i].name()) && 0 <= k < dep_count(s[i])
        && #[trigger] dep_name(s[i], k) == x
}

/// Module `m` was installed only as a dependency.
pub open spec fn is_implicit(m: DiscoveredModule) -> bool {
    m.manifest.module.implicit == Some(true)
}

/// One round of pruning, from module `lo` on: with `pruned` the names pruned
/// before the round and `cur` those pruned so far, the modules (by index)
/// that are implicit, not yet pruned by name, and have no user outside
/// `pruned`.
pub open spec fn round_from(s: Seq<DiscoveredModule>, pruned: Seq<Seq<char>>, cur: Seq<Seq<char>>, lo: int) -> Seq<int>
    decreases s.len() - lo,
{
    if lo < 0 || lo >= s.len() {
        Seq::empty()
    } else if !cur.contains(s[lo].name()) && is_implicit(s[lo]) && !has_live_user(s, pruned, s[lo].name()) {
        seq![lo] + round_from(s, pruned, cur.push(s[lo].name()), lo + 1)
    } else {
        round_from(s, pruned, cur, lo + 1)
    }
}

/// The names of the modules at the given indices.
pub open spec fn names_of(s: Seq<DiscoveredModule>, idx: Seq<int>) -> Seq<Seq<char>> {
    idx.map_values(|i: int| s[i].name())
}

/// Rounds of pruning, at most `fuel` of them, until one prunes nothing.
pub open spec fn rounds(s: Seq<DiscoveredModule>, pruned: Seq<Seq<char>>, fuel: nat) -> Seq<int>
    decreases fuel,
{
    if fuel == 0 {
        Seq::empty()
    } else {
        let new = round_from(s, pruned, pruned, 0);
        if new.len() == 0 {
            Seq::empty()
        } else {
            new + rounds(s, pruned + names_of(s, new), (fuel - 1) as nat)
        }
    }
}

/// The modules pruned, by index, round after round.
pub open spec fn orphan_order(s: Seq<DiscoveredModule>) -> Seq<int> {
    rounds(s, Seq::empty(), s.len() + 1)
}

/// The number of modules among the first `hi` whose names are not in `p`.
pub open spec fn unpruned(s: Seq<DiscoveredModule>, p: Seq<Seq<char>>, hi: int) -> nat
    decreases hi,
{
    if hi <= 0 {
        0
    } else {
        unpruned(s, p, hi - 1) + if p.contains(s[hi - 1].name()) { 0nat } else { 1nat }
    }
}

proof fn lemma_unpruned_shrinks(s: Seq<DiscoveredModule>, p: Seq<Seq<char>>, q: Seq<Seq<char>>, j: int, hi: int)
    requires
        forall|x: Seq<char>| p.contains(x) ==> q.contains(x),
    ensures
        unpruned(s, q, hi) <= unpruned(s, p, hi),
        0 <= j < hi && !p.contains(s[j].name()) && q.contains(s[j].name()) ==> unpruned(s, q, hi) < unpruned(s, p, hi),
    decreases hi,
{
    if hi > 0 {
        lemma_unpruned_shrinks(s, p, q, j, hi - 1);
    }
}

/// Whether a module outside the first `np` entries of `pruned` has a
/// dependency entry naming `x`.
fn live_user(modules: &Vec<DiscoveredModule>, names: &Vec<Vec<char>>, pruned: &Vec<Vec<char>>, np: usize, x: &Vec<char>) -> (r: bool)
    requires
        np <= pruned@.len(),
        names@.len() == modules@.len(),
        forall|t: int| 0 <= t < modules@.len() ==> (#[trigger] names@[t])@ == modules@[t].name(),
    ensures
        r == has_live_user(modules@, chars_views(pruned@).take(np as int), x@),
{
    let ghost p = chars_views(pruned@).take(np as int);
    let mut i: usize = 0;
    while i < modules.len()
        invariant
            np <= pruned@.len(),
            p == chars_views(pruned@).take(np as int),
            names@.len() == modules@.len(),
            forall|t: int| 0 <= t < modules@.len() ==> (#[trigger] names@[t])@ == modules@[t].name(),
            i <= modules@.len(),
            forall|a: int, k: int| 0 <= a < i && !p.contains(modules@[a].name()) && 0 <= k < dep_count(modules@[a])
                ==> #[trigger] dep_name(modules@[a], k) != x@,
        decreases modules.len() - i,
    {
        let mut inside = false;
        let mut j: usize = 0;
        while j < np
            invariant
                np <= pruned@.len(),
                p == chars_views(pruned@).take(np as int),
                i < modules@.len(),
                names@.len() == modules@.len(),
                forall|t: int| 0 <= t < modules@.len() ==> (#[trigger] names@[t])@ == modules@[t].name(),
                j <= np,
                inside == exists|t: int| 0 <= t < j && p[t] == modules@[i as int].name(),
            decreases np - j,
        {
            assert(p[j as int] == pruned@[j as int]@);
            if chars_equal(&pruned[j], &names[i]) {
                inside = true;
            }
            j += 1;
        }
        assert(p.len() == np);
        if !inside {
            assert(!p.contains(modules@[i as int].name())) by {
                if p.contains(modules@[i as int].name()) {
                    let t = choose|t: int| 0 <= t < p.len() && p[t] == modules@[i as int].name();
                    assert(0 <= t < np && p[t] == modules@[i as int].name());
                }
            }
            let deps = &modules[i].manifest.module.deps;
            let mut k: usize = 0;
            while k < deps.len()
                invariant
                    !p.contains(modules@[i as int].name()),
                    p == chars_views(pruned@).take(np as int),
                    i < modules@.len(),
                    deps@ == modules@[i as int].manifest.module.deps@,
                    k <= deps@.len(),
                    forall|q: int| 0 <= q < k ==> #[trigger] dep_name(modules@[i as int], q) != x@,
                decreases deps.len() - k,
            {
                let e = chars_of(deps[k].name.as_str());
                if chars_equal(&e, x) {
                    assert(dep_name(modules@[i as int], k as int) == x@);
                    assert(!p.contains(modules@[i as int].name()));
                    return true;
                }
                k += 1;
            }
        }
        i += 1;
    }
    false
}

/// Whether `v[..np]` holds `x`.
fn prefix_holds(v: &Vec<Vec<char>>, np: usize, x: &Vec<char>) -> (r: bool)
    requires
        np <= v@.len(),
    ensures
        r == chars_views(v@).take(np as int).contains(x@),
{
    let ghost p = chars_views(v@).take(np as int);
    let mut j: usize = 0;
    while j < np
        invariant
            np <= v@.len(),
            p == chars_views(v@).take(np as int),
            j <= np,
            forall|t: int| 0 <= t < j ==> p[t] != x@,
        decreases np - j,
    {
        if chars_equal(&v[j], x) {
            assert(p[j as int] == x@);
            return true;
        }
        j += 1;
    }
    false
}

/// The modules (by index) that prune removes: round after round, the
/// modules installed only as dependencies (`implicit = true`) on which no
/// module left depends.
pub fn orphaned_modules(modules: &Vec<DiscoveredModule>) -> (r: Vec<usize>)
    ensures
        r@.len() == orphan_order(modules@).len(),
        forall|k: int| 0 <= k < r@.len() ==> r@[k] as int == #[trigger] orphan_order(modules@)[k],
{
    let ghost s = modules@;
    let n = modules.len();
    let names = module_name_chars(modules);
    let mut result: Vec<usize> = Vec::new();
    let mut pruned: Vec<Vec<char>> = Vec::new();
    let ghost mut fuel: nat = (n + 1) as nat;
    let mut done = false;
    proof {
        lemma_unpruned_shrinks(s, Seq::empty(), Seq::empty(), 0, n as int);
        lemma_unpruned_le(s, Seq::empty(), n as int);
        assert(chars_views(pruned@) == Seq::<Seq<char>>::empty());
        assert(result@.map_values(|x: usize| x as int) + rounds(s, chars_views(pruned@), fuel) == orphan_order(s));
    }
    while !done
        invariant
            s == modules@,
            n == s.len(),
            names@.len() == n,
            forall|t: int| 0 <= t < n ==> (#[trigger] names@[t])@ == s[t].name(),
            result@.map_values(|x: usize| x as int) + rounds(s, chars_views(pruned@), fuel) == orphan_order(s),
            !done ==> fuel >= unpruned(s, chars_views(pruned@), n as int) + 1,
            done ==> rounds(s, chars_views(pruned@), fuel) == Seq::<int>::empty(),
        decreases unpruned(s, chars_views(pruned@), n as int) + if done { 0int } else { 1int },
    {
        let ghost p = chars_views(pruned@);
        let np = pruned.len();
        let mut new: Vec<usize> = Vec::new();
        let mut lo: usize = 0;
        while lo < n
            invariant
                s == modules@,
                n == s.len(),
                names@.len() == n,
                forall|t: int| 0 <= t < n ==> (#[trigger] names@[t])@ == s[t].name(),
                np <= pruned@.len(),
                p == chars_views(pruned@).take(np as int),
                chars_views(pruned@) == p + names_of(s, new@.map_values(|x: usize| x as int)),
                lo <= n,
                forall|t: int| 0 <= t < new@.len() ==> new@[t] < lo,
                new@.map_values(|x: usize| x as int) + round_from(s, p, chars_views(pruned@), lo as int) == round_from(s, p, p, 0),
            decreases n - lo,
        {
            let ghost before = new@.map_values(|x: usize| x as int);
            let ghost cur = chars_views(pruned@);
            let implicit = match modules[lo].manifest.module.implicit {
                Some(b) => b,
                None => false,
            };
            if !prefix_holds(&pruned, pruned.len(), &names[lo]) && implicit && !live_user(modules, &names, &pruned, np, &names[lo]) {
                assert(chars_views(pruned@).take(pruned@.len() as int) == cur);
                new.push(lo);
                pruned.push(names[lo].clone());
                proof {
                    assert(new@.map_values(|x: usize| x as int) == before.push(lo as int));
                    assert(chars_views(pruned@) == cur.push(s[lo as int].name()));
                    assert(chars_views(pruned@).take(np as int) == p);
                    assert(names_of(s, before.push(lo as int)) == names_of(s, before).push(s[lo as int].name()));
                    assert(before.push(lo as int) + round_from(s, p, cur.push(s[lo as int].name()), lo + 1)
                        == before + (seq![lo as int] + round_from(s, p, cur.push(s[lo as int].name()), lo + 1)));
                }
            } else {
                assert(chars_views(pruned@).take(pruned@.len() as int) == cur);
            }
            lo += 1;
        }
        assert(round_from(s, p, chars_views(pruned@), n as int) == Seq::<int>::empty());
        let ghost new_view = new@.map_values(|x: usize| x as int);
        if new.len() == 0 {
            done = true;
        } else {
            proof {
                assert(new_view[0] == round_from(s, p, p, 0)[0]);
                lemma_round_first(s, p, p, 0);
                let j = new_view[0];
                assert forall|x: Seq<char>| p.contains(x) implies chars_views(pruned@).contains(x) by {
                    let t = choose|t: int| 0 <= t < p.len() && p[t] == x;
                    assert(chars_views(pruned@)[t] == x);
                }
                assert(names_of(s, new_view)[0] == s[j].name());
                assert(chars_views(pruned@)[p.len() as int] == s[j].name());
                lemma_unpruned_shrinks(s, p, chars_views(pruned@), j, n as int);
            }
            let mut t: usize = 0;
            let ghost acc = result@.map_values(|x: usize| x as int);
            while t < new.len()
                invariant
                    t <= new@.len(),
                    result@.map_values(|x: usize| x as int) == acc + new@.map_values(|x: usize| x as int).take(t as int),
                decreases new.len() - t,
            {
                let ghost rb = result@;
                result.push(new[t]);
                assert(result@.map_values(|x: usize| x as int) == rb.map_values(|x: usize| x as int).push(new@[t as int] as int));
                assert(new@.map_values(|x: usize| x as int).take(t + 1) == new@.map_values(|x: usize| x as int).take(t as int).push(new@[t as int] as int));
                t += 1;
            }
            proof {
                assert(new@.map_values(|x: usize| x as int).take(new@.len() as int) == new_view);
                assert(rounds(s, p, fuel) == new_view + rounds(s, p + names_of(s, new_view), (fuel - 1) as nat));
                fuel = (fuel - 1) as nat;
            }
        }
    }
    proof {
        assert(result@.map_values(|x: usize| x as int) == orphan_order(s));
        assert forall|k: int| 0 <= k < result@.len() implies result@[k] as int == #[trigger] orphan_order(s)[k] by {
            assert(result@.map_values(|x: usize| x as int)[k] == result@[k] as int);
        }
    }
    result
}

proof fn lemma_unpruned_le(s: Seq<DiscoveredModule>, p: Seq<Seq<char>>, hi: int)
    requires
        hi <= s.len(),
    ensures
        unpruned(s, p, hi) <= if hi < 0 { 0 } else { hi as nat },
    decreases hi,
{
    if hi > 0 {
        lemma_unpruned_le(s, p, hi - 1);
    }
}

proof fn lemma_round_first(s: Seq<DiscoveredModule>, p: Seq<Seq<char>>, cur: Seq<Seq<char>>, lo: int)
    requires
        round_from(s, p, cur, lo).len() > 0,
        forall|x: Seq<char>| p.contains(x) ==> cur.contains(x),
    ensures
        0 <= round_from(s, p, cur, lo)[0] < s.len(),
        !p.contains(s[round_from(s, p, cur, lo)[0]].name()),
    decreases s.len() - lo,
{
    if 0 <= lo < s.len() {
        if !cur.contains(s[lo].name()) && is_implicit(s[lo]) && !has_live_user(s, p, s[lo].name()) {
        } else {
            lemma_round_first(s, p, cur, lo + 1);
        }
    }
}


proof fn lemma_round(s: Seq<DiscoveredModule>, p: Seq<Seq<char>>, cur: Seq<Seq<char>>, lo: int)
    requires
        0 <= lo <= s.len(),
    ensures
        forall|k: int| 0 <= k < round_from(s, p, cur, lo).len() ==> {
            let i = #[trigger] round_from(s, p, cur, lo)[k];
            &&& lo <= i < s.len()
            &&& is_implicit(s[i])
            &&& !has_live_user(s, p, s[i].name())
            &&& !cur.contains(s[i].name())
        },
        names_of(s, round_from(s, p, cur, lo)).no_duplicates(),
        round_from(s, p, cur, lo).len() == 0 ==> forall|i: int| lo <= i < s.len() && is_implicit(#[trigger] s[i])
            && !cur.contains(s[i].name()) ==> has_live_user(s, p, s[i].name()),
    decreases s.len() - lo,
{
    if lo < s.len() {
        let n = s[lo].name();
        if !cur.contains(n) && is_implicit(s[lo]) && !has_live_user(s, p, n) {
            let c2 = cur.push(n);
            lemma_round(s, p, c2, lo + 1);
            let rest = round_from(s, p, c2, lo + 1);
            let out = round_from(s, p, cur, lo);
            assert(out == seq![lo] + rest);
            assert forall|k: int| 0 <= k < out.len() implies {
                let i = #[trigger] out[k];
                &&& lo <= i < s.len()
                &&& is_implicit(s[i])
                &&& !has_live_user(s, p, s[i].name())
                &&& !cur.contains(s[i].name())
            } by {
                if k > 0 {
                    assert(out[k] == rest[k - 1]);
                    let i = rest[k - 1];
                    if cur.contains(s[i].name()) {
                        let t = choose|t: int| 0 <= t < cur.len() && cur[t] == s[i].name();
                        assert(c2[t] == s[i].name());
                    }
                }
            }
            let names = names_of(s, out);
            assert forall|a: int, b: int| 0 <= a < names.len() && 0 <= b < names.len() && a != b implies names[a] != names[b] by {
                if a > 0 && b > 0 {
                    assert(names[a] == names_of(s, rest)[a - 1] && names[b] == names_of(s, rest)[b - 1]);
                } else {
                    let c = if a == 0 { b } else { a };
                    assert(out[c] == rest[c - 1]);
                    assert(c2[cur.len() as int] == n);
                    assert(!c2.contains(s[rest[c - 1]].name()));
                }
            }
        } else {
            lemma_round(s, p, cur, lo + 1);
        }
    }
}

proof fn lemma_rounds(s: Seq<DiscoveredModule>, p: Seq<Seq<char>>, fuel: nat)
    requires
        fuel > unpruned(s, p, s.len() as int),
    ensures
        forall|k: int| 0 <= k < rounds(s, p, fuel).len() ==> {
            let i = #[trigger] rounds(s, p, fuel)[k];
            &&& 0 <= i < s.len()
            &&& is_implicit(s[i])
            &&& !p.contains(s[i].name())
        },
        names_of(s, rounds(s, p, fuel)).no_duplicates(),
        forall|k: int, i: int, t: int| 0 <= k < rounds(s, p, fuel).len() && 0 <= i < s.len()
            && !(p + names_of(s, rounds(s, p, fuel))).contains(s[i].name()) && 0 <= t < dep_count(s[i])
            ==> #[trigger] dep_name(s[i], t) != s[#[trigger] rounds(s, p, fuel)[k]].name(),
        forall|i: int| 0 <= i < s.len() && is_implicit(#[trigger] s[i]) && !(p + names_of(s, rounds(s, p, fuel))).contains(s[i].name())
            ==> has_live_user(s, p + names_of(s, rounds(s, p, fuel)), s[i].name()),
    decreases fuel,
{
    let new = round_from(s, p, p, 0);
    lemma_round(s, p, p, 0);
    let out = rounds(s, p, fuel);
    if new.len() == 0 {
        assert(out.len() == 0);
        assert(names_of(s, out) =~= Seq::<Seq<char>>::empty());
        assert(p + names_of(s, out) =~= p);
    } else {
        let p2 = p + names_of(s, new);
        let j = new[0];
        assert(p2.contains(s[j].name())) by {
            assert(p2[p.len() as int] == names_of(s, new)[0]);
        }
        assert forall|x: Seq<char>| p.contains(x) implies p2.contains(x) by {
            let t = choose|t: int| 0 <= t < p.len() && p[t] == x;
            assert(p2[t] == x);
        }
        lemma_unpruned_shrinks(s, p, p2, j, s.len() as int);
        let rest = rounds(s, p2, (fuel - 1) as nat);
        lemma_rounds(s, p2, (fuel - 1) as nat);
        assert(out == new + rest);
        let r = p + names_of(s, out);
        assert(names_of(s, out) =~= names_of(s, new) + names_of(s, rest));
        assert(r =~= p2 + names_of(s, rest));
        assert forall|k: int| 0 <= k < out.len() implies {
            let i = #[trigger] out[k];
            &&& 0 <= i < s.len()
            &&& is_implicit(s[i])
            &&& !p.contains(s[i].name())
        } by {
            if k >= new.len() {
                assert(out[k] == rest[k - new.len()]);
                let i = rest[k - new.len()];
                if p.contains(s[i].name()) {
                    let t = choose|t: int| 0 <= t < p.len() && p[t] == s[i].name();
                    assert(p2[t] == s[i].name());
                }
            }
        }
        let nn = names_of(s, out);
        assert forall|a: int, b: int| 0 <= a < nn.len() && 0 <= b < nn.len() && a != b implies nn[a] != nn[b] by {
            let nl = new.len() as int;
            if a < nl && b < nl {
                assert(nn[a] == names_of(s, new)[a] && nn[b] == names_of(s, new)[b]);
            } else if a >= nl && b >= nl {
                assert(nn[a] == names_of(s, rest)[a - nl] && nn[b] == names_of(s, rest)[b - nl]);
            } else {
                let (x, y) = if a < nl { (a, b) } else { (b, a) };
                assert(nn[x] == names_of(s, new)[x]);
                assert(out[y] == rest[y - nl]);
                assert(p2[p.len() as int + x] == nn[x]);
                assert(!p2.contains(s[rest[y - nl]].name()));
            }
        }
        assert forall|k: int, i: int, t: int| 0 <= k < out.len() && 0 <= i < s.len()
            && !r.contains(s[i].name()) && 0 <= t < dep_count(s[i])
            implies #[trigger] dep_name(s[i], t) != s[#[trigger] out[k]].name() by {
            if k < new.len() {
                if p.contains(s[i].name()) {
                    let u = choose|u: int| 0 <= u < p.len() && p[u] == s[i].name();
                    assert(r[u] == s[i].name());
                }
                assert(!has_live_user(s, p, s[new[k]].name()));
            } else {
                assert(out[k] == rest[k - new.len()]);
                assert(dep_name(s[i], t) != s[rest[k - new.len()]].name());
            }
        }
    }
}

/// What prune removes is closed: every module it removes was installed only
/// as a dependency, none is named twice, no module it keeps depends on one
/// it removes, and every module installed only as a dependency that it keeps
/// is a dependency of a module it keeps.
pub proof fn lemma_orphans_closed(s: Seq<DiscoveredModule>)
    ensures
        forall|k: int| 0 <= k < orphan_order(s).len() ==> 0 <= #[trigger] orphan_order(s)[k] < s.len()
            && is_implicit(s[orphan_order(s)[k]]),
        names_of(s, orphan_order(s)).no_duplicates(),
        forall|k: int, i: int, t: int| 0 <= k < orphan_order(s).len() && 0 <= i < s.len()
            && !names_of(s, orphan_order(s)).contains(s[i].name()) && 0 <= t < dep_count(s[i])
            ==> #[trigger] dep_name(s[i], t) != s[#[trigger] orphan_order(s)[k]].name(),
        forall|i: int| 0 <= i < s.len() && is_implicit(#[trigger] s[i]) && !names_of(s, orphan_order(s)).contains(s[i].name())
            ==> has_live_user(s, names_of(s, orphan_order(s)), s[i].name()),
{
    let e = Seq::<Seq<char>>::empty();
    lemma_unpruned_le(s, e, s.len() as int);
    lemma_rounds(s, e, (s.len() + 1) as nat);
    assert(e + names_of(s, orphan_order(s)) =~= names_of(s, orphan_order(s)));
}

} // verus!
