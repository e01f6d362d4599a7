//! What the commands' displays and summaries promise, whatever the modules:
//! how a loaded module is named in `gai list`, which modules `gai profile`
//! times, how `gai sync` counts, and where a package spec points.
use vstd::prelude::*;
use crate::types::{DiscoveredModule, ModuleStatus, Tone};
use crate::manifest::LoadMode;
use crate::list::status_word;
use crate::profile::{profile_blocks, profile_block};
use crate::sync::count_status;
use crate::install::{raw_url, split_branch, sanitized, trim_end_char, trim_end_git};
use crate::text::has_prefix;

verus! {

/// A loaded module whose `[load]` section asks for lazy loading is shown as
/// `lazy`, in cyan, whatever `defer_on_cmd` says.
pub proof fn lemma_lazy_mode_shown_lazy(m: DiscoveredModule)
    requires
        m.status is Loaded,
        m.manifest.load matches Some(l) && l.load_mode == LoadMode::Lazy,
    ensures
        status_word(m) == ("lazy"@, Tone::Cyan),
{
}

/// A loaded module that defers its loading to the first call is shown as
/// `lazy`, in cyan, whatever its load mode.
pub proof fn lemma_deferred_shown_lazy(m: DiscoveredModule)
    requires
        m.status is Loaded,
        m.manifest.api.defer_on_cmd,
    ensures
        status_word(m) == ("lazy"@, Tone::Cyan),
{
}

/// A loaded module is shown as `lazy`, `event` or `loaded`, and as `loaded`,
/// in green, exactly when it neither loads lazily, nor defers, nor waits for
/// an event; a module that is not loaded is never shown as one of these.
pub proof fn lemma_loaded_words(m: DiscoveredModule)
    ensures
        m.status is Loaded ==> (status_word(m).0 == "lazy"@ || status_word(m).0 == "event"@ || status_word(m).0 == "loaded"@),
        m.status is Loaded ==> (status_word(m) == ("loaded"@, Tone::Green) <==> (!m.manifest.api.defer_on_cmd
            && !(m.manifest.load matches Some(l) && (l.load_mode == LoadMode::Lazy || l.load_mode == LoadMode::Event)))),
        !(m.status is Loaded) ==> status_word(m).0 != "lazy"@ && status_word(m).0 != "event"@ && status_word(m).0 != "loaded"@,
{
    reveal_strlit("lazy");
    reveal_strlit("event");
    reveal_strlit("loaded");
    reveal_strlit("warn");
    reveal_strlit("skipped");
    reveal_strlit("cycle");
    reveal_strlit("error");
    if !(m.status is Loaded) {
        let w = status_word(m).0;
        assert(w.len() != 4 || w[0] != 'l');
        assert(w.len() != 6);
        assert(w.len() != 5 || w[1] != 'v');
        assert(w != "lazy"@) by { if w == "lazy"@ { assert(w.len() == 4 && w[0] == 'l'); } }
        assert(w != "event"@) by { if w == "event"@ { assert(w.len() == 5 && w[1] == 'v'); } }
        assert(w != "loaded"@) by { if w == "loaded"@ { assert(w.len() == 6); } }
    }
}

proof fn lemma_profile_remove(s: Seq<DiscoveredModule>, h: Seq<bool>, i: int, hi: int)
    requires
        h.len() == s.len(),
        0 <= i < s.len(),
        !(s[i].status is Loaded && h[i]),
        0 <= hi <= s.len(),
    ensures
        hi <= i ==> profile_blocks(s, h, hi) == profile_blocks(s.remove(i), h.remove(i), hi),
        hi > i ==> profile_blocks(s, h, hi) == profile_blocks(s.remove(i), h.remove(i), hi - 1),
    decreases hi,
{
    if hi > 0 {
        lemma_profile_remove(s, h, i, hi - 1);
        if hi - 1 < i {
            assert(s.remove(i)[hi - 1] == s[hi - 1]);
            assert(h.remove(i)[hi - 1] == h[hi - 1]);
        } else if hi - 1 > i {
            assert(s.remove(i)[hi - 2] == s[hi - 1]);
            assert(h.remove(i)[hi - 2] == h[hi - 1]);
        }
    }
}

/// `gai profile` times only loaded modules that have an `init.zsh`: taking
/// away any other module leaves the timing script unchanged.
pub proof fn lemma_profile_only_loaded(s: Seq<DiscoveredModule>, has_init: Seq<bool>, i: int)
    requires
        has_init.len() == s.len(),
        0 <= i < s.len(),
        !(s[i].status is Loaded) || !has_init[i],
    ensures
        profile_blocks(s, has_init, s.len() as int)
            == profile_blocks(s.remove(i), has_init.remove(i), s.remove(i).len() as int),
{
    lemma_profile_remove(s, has_init, i, s.len() as int);
}

/// Every loaded module with an `init.zsh` is timed, after the modules before
/// it: the script for the modules with one more loaded module at the end is
/// the script before, followed by that module's timing lines.
pub proof fn lemma_profile_adds_loaded(s: Seq<DiscoveredModule>, has_init: Seq<bool>, m: DiscoveredModule)
    requires
        has_init.len() == s.len(),
        m.status is Loaded,
    ensures
        profile_blocks(s.push(m), has_init.push(true), s.len() as int + 1)
            == profile_blocks(s, has_init, s.len() as int) + profile_block(m),
{
    lemma_profile_prefix(s, has_init, m, true, s.len() as int);
}

proof fn lemma_profile_prefix(s: Seq<DiscoveredModule>, h: Seq<bool>, m: DiscoveredModule, b: bool, hi: int)
    requires
        h.len() == s.len(),
        0 <= hi <= s.len(),
    ensures
        profile_blocks(s.push(m), h.push(b), hi) == profile_blocks(s, h, hi),
    decreases hi,
{
    if hi > 0 {
        lemma_profile_prefix(s, h, m, b, hi - 1);
        assert(s.push(m)[hi - 1] == s[hi - 1]);
        assert(h.push(b)[hi - 1] == h[hi - 1]);
    }
}

/// The modules whose status is a warning about a repeated dependency.
pub open spec fn is_warned(m: DiscoveredModule) -> bool {
    m.status is WarnDuplicateDep
}

/// The modules that are neither loaded nor loaded with a warning.
pub open spec fn is_skipped(m: DiscoveredModule) -> bool {
    !(m.status is Loaded) && !(m.status is WarnDuplicateDep)
}

/// The loaded modules.
pub open spec fn is_loaded(m: DiscoveredModule) -> bool {
    m.status is Loaded
}

proof fn lemma_counts_filter(s: Seq<DiscoveredModule>, hi: int)
    requires
        0 <= hi <= s.len(),
    ensures
        count_status(s, true, hi) == s.take(hi).filter(|m: DiscoveredModule| is_loaded(m)).len(),
        count_status(s, false, hi) == s.take(hi).filter(|m: DiscoveredModule| is_warned(m)).len(),
        hi - count_status(s, true, hi) - count_status(s, false, hi)
            == s.take(hi).filter(|m: DiscoveredModule| is_skipped(m)).len(),
    decreases hi,
{
    let pl = |m: DiscoveredModule| is_loaded(m);
    let pw = |m: DiscoveredModule| is_warned(m);
    let ps = |m: DiscoveredModule| is_skipped(m);
    if hi == 0 {
        assert(s.take(0) =~= Seq::<DiscoveredModule>::empty());
        reveal(Seq::filter);
    } else {
        lemma_counts_filter(s, hi - 1);
        let t = s.take(hi - 1);
        assert(s.take(hi) =~= t.push(s[hi - 1]));
        t.lemma_filter_push(s[hi - 1], pl);
        t.lemma_filter_push(s[hi - 1], pw);
        t.lemma_filter_push(s[hi - 1], ps);
    }
}

/// `gai sync` counts each module once: the loaded ones, those with a warning
/// about a repeated dependency, and all the others as skipped.
pub proof fn lemma_sync_counts_by_status(s: Seq<DiscoveredModule>)
    ensures
        count_status(s, true, s.len() as int) == s.filter(|m: DiscoveredModule| is_loaded(m)).len(),
        count_status(s, false, s.len() as int) == s.filter(|m: DiscoveredModule| is_warned(m)).len(),
        s.len() - count_status(s, true, s.len() as int) - count_status(s, false, s.len() as int)
            == s.filter(|m: DiscoveredModule| is_skipped(m)).len(),
{
    lemma_counts_filter(s, s.len() as int);
    assert(s.take(s.len() as int) =~= s);
}


proof fn lemma_trim_slash_after(h: Seq<char>, p: Seq<char>)
    requires
        trim_end_char(p, '/').len() > 0,
    ensures
        trim_end_char(h + p, '/') == h + trim_end_char(p, '/'),
    decreases p.len(),
{
    if p.len() > 0 && p.last() == '/' {
        assert((h + p).drop_last() =~= h + p.drop_last());
        lemma_trim_slash_after(h, p.drop_last());
    } else {
        assert(p.len() > 0);
        assert((h + p).last() == p.last());
    }
}

proof fn lemma_trim_git_after(h: Seq<char>, q: Seq<char>)
    requires
        h.len() > 0,
        h.last() == '/',
    ensures
        trim_end_git(h + q) == h + trim_end_git(q),
    decreases q.len(),
{
    let a = h + q;
    let git = seq!['.', 'g', 'i', 't'];
    if q.len() >= 4 {
        assert(a.subrange(a.len() - 4, a.len() as int) =~= q.subrange(q.len() - 4, q.len() as int));
        if q.subrange(q.len() - 4, q.len() as int) == git {
            assert(a.subrange(0, a.len() - 4) =~= h + q.subrange(0, q.len() - 4));
            lemma_trim_git_after(h, q.subrange(0, q.len() - 4));
        }
    } else {
        if a.len() >= 4 && a.subrange(a.len() - 4, a.len() as int) == git {
            let k = h.len() - 1 - (a.len() - 4);
            assert(0 <= k < 4);
            assert(a.subrange(a.len() - 4, a.len() as int)[k] == a[h.len() - 1]);
            assert(a[h.len() - 1] == '/');
            assert(git[k] != '/');
        }
    }
}

/// Cleaning an address that begins with a host part ending in `/` cleans
/// only what follows it, as long as something other than `/` follows.
pub proof fn lemma_sanitized_after_host(h: Seq<char>, p: Seq<char>)
    requires
        h.len() > 0,
        h.last() == '/',
        trim_end_char(p, '/').len() > 0,
    ensures
        sanitized(h + p) == h + sanitized(p),
{
    lemma_trim_slash_after(h, p);
    lemma_trim_git_after(h, trim_end_char(p, '/'));
}

/// A spec `gitlab:p` names the repository at path `p` on gitlab.com: the
/// address cloned is the gitlab host followed by `p` (cleaned of trailing
/// `/` and `.git`) and `.git`; the `gitlab:` prefix is not part of it.
pub proof fn lemma_gitlab_address(spec: Seq<char>, p: Seq<char>)
    requires
        split_branch(spec).0 == "gitlab:"@ + p,
        trim_end_char(p, '/').len() > 0,
    ensures
        raw_url(split_branch(spec).0) matches Some(u)
            && sanitized(u) + ".git"@ == "https://gitlab.com/"@ + sanitized(p) + ".git"@,
{
    reveal_strlit("gitlab:");
    reveal_strlit("github:");
    reveal_strlit("http://");
    reveal_strlit("https://");
    reveal_strlit("https://gitlab.com/");
    let base = split_branch(spec).0;
    assert(base[0] == 'g');
    assert(!has_prefix(base, "http://"@)) by { if has_prefix(base, "http://"@) { assert(base.subrange(0, 7)[0] == 'h'); } }
    assert(!has_prefix(base, "https://"@)) by { if has_prefix(base, "https://"@) { assert(base.subrange(0, 8)[0] == 'h'); } }
    assert(base[3] == 'l');
    assert(!has_prefix(base, "github:"@)) by { if has_prefix(base, "github:"@) { assert(base.subrange(0, 7)[3] == 'h'); } }
    assert(base.subrange(0, 7) =~= "gitlab:"@);
    assert(has_prefix(base, "gitlab:"@));
    assert(base.subrange(7, base.len() as int) =~= p);
    let h = "https://gitlab.com/"@;
    assert(h.last() == '/');
    lemma_sanitized_after_host(h, p);
}

/// A spec `github:p` names the repository at path `p` on github.com: the
/// address cloned is the github host followed by `p` (cleaned of trailing
/// `/` and `.git`) and `.git`.
pub proof fn lemma_github_address(spec: Seq<char>, p: Seq<char>)
    requires
        split_branch(spec).0 == "github:"@ + p,
        trim_end_char(p, '/').len() > 0,
    ensures
        raw_url(split_branch(spec).0) matches Some(u)
            && sanitized(u) + ".git"@ == "https://github.com/"@ + sanitized(p) + ".git"@,
{
    reveal_strlit("github:");
    reveal_strlit("http://");
    reveal_strlit("https://");
    reveal_strlit("https://github.com/");
    let base = split_branch(spec).0;
    assert(base[0] == 'g');
    assert(!has_prefix(base, "http://"@)) by { if has_prefix(base, "http://"@) { assert(base.subrange(0, 7)[0] == 'h'); } }
    assert(!has_prefix(base, "https://"@)) by { if has_prefix(base, "https://"@) { assert(base.subrange(0, 8)[0] == 'h'); } }
    assert(base.subrange(0, 7) =~= "github:"@);
    assert(has_prefix(base, "github:"@));
    assert(base.subrange(7, base.len() as int) =~= p);
    let h = "https://github.com/"@;
    assert(h.last() == '/');
    lemma_sanitized_after_host(h, p);
}


/// A spec `user/repo`, with no scheme or host prefix, names a repository on
/// github.com: the address cloned is the github host followed by the spec
/// (cleaned of trailing `/` and `.git`) and `.git`.
pub proof fn lemma_shorthand_address(spec: Seq<char>)
    requires
        split_branch(spec).0.len() > 0,
        split_branch(spec).0[0] != 'h',
        split_branch(spec).0[0] != 'g',
        split_branch(spec).0.contains('/'),
        trim_end_char(split_branch(spec).0, '/').len() > 0,
    ensures
        raw_url(split_branch(spec).0) matches Some(u)
            && sanitized(u) + ".git"@ == "https://github.com/"@ + sanitized(split_branch(spec).0) + ".git"@,
{
    reveal_strlit("gitlab:");
    reveal_strlit("github:");
    reveal_strlit("http://");
    reveal_strlit("https://");
    reveal_strlit("https://github.com/");
    let base = split_branch(spec).0;
    assert(!has_prefix(base, "http://"@)) by { if has_prefix(base, "http://"@) { assert(base.subrange(0, 7)[0] == 'h'); } }
    assert(!has_prefix(base, "https://"@)) by { if has_prefix(base, "https://"@) { assert(base.subrange(0, 8)[0] == 'h'); } }
    assert(!has_prefix(base, "github:"@)) by { if has_prefix(base, "github:"@) { assert(base.subrange(0, 7)[0] == 'g'); } }
    assert(!has_prefix(base, "gitlab:"@)) by { if has_prefix(base, "gitlab:"@) { assert(base.subrange(0, 7)[0] == 'g'); } }
    crate::text::lemma_first_index_of(base, '/');
    let k = choose|k: int| 0 <= k < base.len() && base[k] == '/';
    assert(crate::text::first_index_of(base, '/') >= 0);
    let h = "https://github.com/"@;
    assert(h.last() == '/');
    lemma_sanitized_after_host(h, base);
}

} // verus!
