//! `gai sync`: where the init script is cached, the script that compiles
//! the module scripts, and the summary printed afterwards.
use vstd::prelude::*;
use crate::types::{DiscoveredModule, ModuleStatus};
use crate::paths::{path_join, join_path};
use crate::loader::{tilde_expanded, expand_tilde};
use crate::text::{chars_of, push_str, replace_all, replace_str, decimal, decimal_string};

verus! {

/// `s` quoted for the inside of single quotes in a shell: each `'`
/// becomes `'\''`.
pub open spec fn spec_sq_escape(s: Seq<char>) -> Seq<char> {
    replace_all(s, "'"@, "'\\''"@)
}

/// `s` made safe inside single quotes in a shell.
pub fn sq_escape(string: &str) -> (r: String)
    ensures
        r@ == spec_sq_escape(string@),
{
    proof { reveal_strlit("'"); }
    replace_str(string, "'", "'\\''")
}

/// Where the init script is cached: `GAI_CACHE` when set and not empty;
/// else `gaiety/init.zsh` under `XDG_CACHE_HOME` when set and not empty,
/// else under `~/.cache` (with `~` expanded).
pub open spec fn cache_path_from(gai_cache: Option<Seq<char>>, xdg_cache: Option<Seq<char>>, r: Seq<char>) -> bool {
    if gai_cache matches Some(g) && g.len() > 0 {
        r == gai_cache->0
    } else if xdg_cache matches Some(x) && x.len() > 0 {
        r == path_join(path_join(xdg_cache->0, "gaiety"@), "init.zsh"@)
    } else {
        exists|home: Seq<char>| #[trigger] tilde_expanded("~/.cache"@, home)
            && r == path_join(path_join(home, "gaiety"@), "init.zsh"@)
    }
}

/// The path of the cached init script, given the values of `GAI_CACHE` and
/// `XDG_CACHE_HOME`.
pub fn default_cache_path(gai_cache: Option<String>, xdg_cache: Option<String>) -> (r: String)
    ensures
        cache_path_from(crate::install::opt_view(gai_cache), crate::install::opt_view(xdg_cache), r@),
{
    if let Some(g) = &gai_cache {
        if chars_of(g.as_str()).len() > 0 {
            let mut r = String::new();
            push_str(&mut r, g.as_str());
            return r;
        }
    }
    let base = match &xdg_cache {
        Some(x) => if chars_of(x.as_str()).len() > 0 {
            let mut b = String::new();
            push_str(&mut b, x.as_str());
            b
        } else {
            expand_tilde("~/.cache")
        },
        None => expand_tilde("~/.cache"),
    };
    let dir = join_path(base.as_str(), "gaiety");
    join_path(dir.as_str(), "init.zsh")
}

/// The script that compiles, in the background, the `init.zsh` of each
/// loaded module that has one (`has_init[i]`) and the cached init script.
pub open spec fn zcompile_lines(s: Seq<DiscoveredModule>, has_init: Seq<bool>, hi: int) -> Seq<char>
    decreases hi,
{
    if hi <= 0 {
        Seq::empty()
    } else {
        zcompile_lines(s, has_init, hi - 1) + if s[hi - 1].status is Loaded && has_init[hi - 1] {
            "zcompile -- '"@ + spec_sq_escape(path_join(s[hi - 1].path@, "init.zsh"@)) + "' 2>/dev/null &\n"@
        } else {
            Seq::empty()
        }
    }
}

/// The whole compile script.
pub open spec fn zcompile_text(s: Seq<DiscoveredModule>, has_init: Seq<bool>, cache_path: Seq<char>) -> Seq<char> {
    zcompile_lines(s, has_init, s.len() as int) + "zcompile -- '"@ + spec_sq_escape(cache_path) + "' 2>/dev/null &\n"@
        + "wait\n"@
}

/// The script that compiles the module scripts and the cached init script.
pub fn zcompile_script(modules: &Vec<DiscoveredModule>, has_init: &Vec<bool>, cache_path: &str) -> (r: String)
    requires
        has_init@.len() == modules@.len(),
    ensures
        r@ == zcompile_text(modules@, has_init@, cache_path@),
{
    let mut script = String::new();
    let mut i: usize = 0;
    while i < modules.len()
        invariant
            has_init@.len() == modules@.len(),
            i <= modules@.len(),
            script@ == zcompile_lines(modules@, has_init@, i as int),
        decreases modules.len() - i,
    {
        let m = &modules[i];
        if m.status.is_loaded() && has_init[i] {
            let p = join_path(m.path.as_str(), "init.zsh");
            let e = sq_escape(p.as_str());
            let mut line = String::new();
            push_str(&mut line, "zcompile -- '");
            push_str(&mut line, e.as_str());
            push_str(&mut line, "' 2>/dev/null &\n");
            push_str(&mut script, line.as_str());
        } else {
            assert(script@ == script@ + Seq::<char>::empty());
        }
        i += 1;
    }
    let e = sq_escape(cache_path);
    push_str(&mut script, "zcompile -- '");
    push_str(&mut script, e.as_str());
    push_str(&mut script, "' 2>/dev/null &\n");
    push_str(&mut script, "wait\n");
    script
}

/// The number of modules among the first `hi` whose status passes `keep`.
pub open spec fn count_status(s: Seq<DiscoveredModule>, loaded: bool, hi: int) -> nat
    decreases hi,
{
    if hi <= 0 {
        0
    } else {
        count_status(s, loaded, hi - 1) + if (loaded && s[hi - 1].status is Loaded)
            || (!loaded && s[hi - 1].status is WarnDuplicateDep) { 1nat } else { 0nat }
    }
}

proof fn lemma_count_status_sum(s: Seq<DiscoveredModule>, hi: int)
    requires
        0 <= hi <= s.len(),
    ensures
        count_status(s, true, hi) + count_status(s, false, hi) <= hi,
    decreases hi,
{
    if hi > 0 {
        lemma_count_status_sum(s, hi - 1);
    }
}

/// How many modules are loaded, how many carry a warning, and how many
/// were skipped.
pub fn sync_counts(modules: &Vec<DiscoveredModule>) -> (r: (usize, usize, usize))
    ensures
        r.0 == count_status(modules@, true, modules@.len() as int),
        r.1 == count_status(modules@, false, modules@.len() as int),
        r.0 + r.1 + r.2 == modules@.len(),
{
    let mut loaded: usize = 0;
    let mut warned: usize = 0;
    let mut i: usize = 0;
    while i < modules.len()
        invariant
            i <= modules@.len(),
            loaded == count_status(modules@, true, i as int),
            warned == count_status(modules@, false, i as int),
            loaded + warned <= i,
        decreases modules.len() - i,
    {
        proof { lemma_count_status_sum(modules@, i + 1); }
        match &modules[i].status {
            ModuleStatus::Loaded => { loaded += 1; },
            ModuleStatus::WarnDuplicateDep(_) => { warned += 1; },
            _ => {},
        }
        i += 1;
    }
    (loaded, warned, modules.len() - loaded - warned)
}

/// The summary of a sync: `synced N module(s)`, then how many carry
/// warnings and how many were skipped, when there are any.
pub open spec fn sync_summary_text(loaded: nat, warned: nat, skipped: nat) -> Seq<char> {
    "synced "@ + decimal(loaded) + " module"@
        + (if loaded == 1 { Seq::empty() } else { "s"@ })
        + (if warned > 0 { ", "@ + decimal(warned) + " with warnings"@ } else { Seq::empty() })
        + (if skipped > 0 { ", "@ + decimal(skipped) + " skipped"@ } else { Seq::empty() })
}

/// The summary printed after a sync.
pub fn sync_summary(loaded: usize, warned: usize, skipped: usize) -> (r: String)
    ensures
        r@ == sync_summary_text(loaded as nat, warned as nat, skipped as nat),
{
    let mut s = String::new();
    push_str(&mut s, "synced ");
    push_str(&mut s, decimal_string(loaded as u64).as_str());
    push_str(&mut s, " module");
    let ghost base = s@;
    if loaded != 1 {
        push_str(&mut s, "s");
    } else {
        assert(s@ == base + Seq::<char>::empty());
    }
    if warned > 0 {
        push_str(&mut s, ", ");
        push_str(&mut s, decimal_string(warned as u64).as_str());
        push_str(&mut s, " with warnings");
    }
    if skipped > 0 {
        push_str(&mut s, ", ");
        push_str(&mut s, decimal_string(skipped as u64).as_str());
        push_str(&mut s, " skipped");
    }
    assert(s@ =~= sync_summary_text(loaded as nat, warned as nat, skipped as nat));
    s
}

} // verus!
