//! Installing modules from git repositories: reading a package spec, naming
//! the module, and the files written for it. Cloning and copying are left
//! to the caller.
use vstd::prelude::*;
use crate::text::{chars_of, push_str, push_char, string_from_range, string_from_chars, find_last, find_first,
    last_index_of, first_index_of, lemma_last_index_of, lemma_first_index_of, starts_with, ends_with,
    has_prefix, has_suffix, holds_text, vec_holds_str, decimal2, decimal2_string, str_equal};
use crate::common::is_valid_name;

verus! {

/// The views of an optional string.
pub open spec fn opt_view(o: Option<String>) -> Option<Seq<char>> {
    match o {
        Some(s) => Some(s@),
        None => None,
    }
}

/// A spec split at its last `@` into the repository part and a branch, when
/// that `@` comes after the last `/` (and is not the first character).
pub open spec fn split_branch(s: Seq<char>) -> (Seq<char>, Option<Seq<char>>) {
    let at = last_index_of(s, '@');
    let slash = last_index_of(s, '/');
    if at >= 0 && at > (if slash < 0 { 0 } else { slash }) {
        (s.subrange(0, at), Some(s.subrange(at + 1, s.len() as int)))
    } else {
        (s, None)
    }
}

/// The repository address a spec names: a full `http(s)://` address, a
/// `github:` or `gitlab:` path, or a `user/repo` path on GitHub.
pub open spec fn raw_url(base: Seq<char>) -> Option<Seq<char>> {
    if has_prefix(base, "http://"@) || has_prefix(base, "https://"@) {
        Some(base)
    } else if has_prefix(base, "github:"@) {
        Some("https://github.com/"@ + base.subrange(7, base.len() as int))
    } else if has_prefix(base, "gitlab:"@) {
        Some("https://gitlab.com/"@ + base.subrange(7, base.len() as int))
    } else if first_index_of(base, '/') >= 0 {
        Some("https://github.com/"@ + base)
    } else {
        None
    }
}

/// The text without the copies of `c` at its end.
pub open spec fn trim_end_char(s: Seq<char>, c: char) -> Seq<char>
    decreases s.len(),
{
    if s.len() > 0 && s.last() == c {
        trim_end_char(s.drop_last(), c)
    } else {
        s
    }
}

/// The text without the copies of `.git` at its end.
pub open spec fn trim_end_git(s: Seq<char>) -> Seq<char>
    decreases s.len(),
{
    if s.len() >= 4 && s.subrange(s.len() - 4, s.len() as int) == seq!['.', 'g', 'i', 't'] {
        trim_end_git(s.subrange(0, s.len() - 4))
    } else {
        s
    }
}

/// An address without trailing `/` and `.git`.
pub open spec fn sanitized(url: Seq<char>) -> Seq<char> {
    trim_end_git(trim_end_char(url, '/'))
}

/// The last `/`-separated part of an address.
pub open spec fn repository_of(url: Seq<char>) -> Seq<char> {
    url.subrange(last_index_of(url, '/') + 1, url.len() as int)
}

/// The message for a spec that names no repository.
pub open spec fn spec_error_message(spec: Seq<char>) -> Seq<char> {
    "Cannot parse package spec '"@ + spec
        + "'.\n  Expected one of:\n  \u{2022} user/repo\n  \u{2022} user/repo@branch\n  \u{2022} github:user/repo\n  \u{2022} gitlab:user/repo\n  \u{2022} https://host/user/repo.git"@
}

/// A package spec, read: the address to clone, the repository's name and
/// the branch, if one was asked for.
#[derive(Debug)]
pub struct ParsedSpec {
    pub url: String,
    pub repository: String,
    pub branch: Option<String>,
}

fn trimmed_url(u: &Vec<char>) -> (r: usize)
    ensures
        r <= u@.len(),
        u@.subrange(0, r as int) == sanitized(u@),
{
    let mut j: usize = u.len();
    assert(u@.subrange(0, j as int) == u@);
    while j > 0 && u[j - 1] == '/'
        invariant
            j <= u@.len(),
            trim_end_char(u@.subrange(0, j as int), '/') == trim_end_char(u@, '/'),
        decreases j,
    {
        assert(u@.subrange(0, j as int).drop_last() == u@.subrange(0, j - 1));
        j -= 1;
    }
    assert(u@.subrange(0, j as int) == trim_end_char(u@, '/'));
    while j >= 4 && u[j - 4] == '.' && u[j - 3] == 'g' && u[j - 2] == 'i' && u[j - 1] == 't'
        invariant
            j <= u@.len(),
            trim_end_git(u@.subrange(0, j as int)) == sanitized(u@),
        decreases j,
    {
        assert(u@.subrange(0, j as int).subrange(j - 4, j as int) =~= seq!['.', 'g', 'i', 't']);
        assert(u@.subrange(0, j as int).subrange(0, j - 4) == u@.subrange(0, j - 4));
        j -= 4;
    }
    proof {
        let t = u@.subrange(0, j as int);
        if t.len() >= 4 {
            if t.subrange(t.len() - 4, t.len() as int) == seq!['.', 'g', 'i', 't'] {
                assert(t.subrange(t.len() - 4, t.len() as int)[0] == u@[j - 4]);
                assert(t.subrange(t.len() - 4, t.len() as int)[1] == u@[j - 3]);
                assert(t.subrange(t.len() - 4, t.len() as int)[2] == u@[j - 2]);
                assert(t.subrange(t.len() - 4, t.len() as int)[3] == u@[j - 1]);
            }
        }
    }
    j
}

impl ParsedSpec {
    /// Reads a package spec: `user/repo`, `user/repo@branch`,
    /// `github:user/repo`, `gitlab:user/repo` or a full address. A branch
    /// given apart wins over one in the spec.
    pub fn new(spec: &str, branch_override: Option<String>) -> (r: Result<ParsedSpec, String>)
        ensures
            match r {
                Ok(p) => {
                    &&& raw_url(split_branch(spec@).0) matches Some(u)
                    &&& p.url@ == sanitized(u) + ".git"@
                    &&& p.repository@ == repository_of(sanitized(u))
                    &&& opt_view(p.branch) == match branch_override {
                        Some(b) => Some(b@),
                        None => split_branch(spec@).1,
                    }
                },
                Err(e) => raw_url(split_branch(spec@).0) is None && e@ == spec_error_message(spec@),
            },
    {
        let v = chars_of(spec);
        proof {
            lemma_last_index_of(v@, '@');
            lemma_last_index_of(v@, '/');
        }
        let at = find_last(&v, '@');
        let slash: usize = match find_last(&v, '/') {
            Some(k) => k,
            None => 0,
        };
        let (base, inline_branch) = match at {
            Some(i) if i > slash => (string_from_range(&v, 0, i), Some(string_from_range(&v, i + 1, v.len()))),
            _ => (string_from_range(&v, 0, v.len()), None),
        };
        proof {
            assert(v@.subrange(0, v@.len() as int) == v@);
        }
        assert(base@ == split_branch(spec@).0);
        assert(opt_view(inline_branch) == split_branch(spec@).1);
        let branch = match branch_override {
            Some(b) => Some(b),
            None => inline_branch,
        };
        let bv = chars_of(base.as_str());
        proof {
            reveal_strlit("github:");
            reveal_strlit("gitlab:");
            lemma_first_index_of(bv@, '/');
        }
        let raw = if starts_with(base.as_str(), "http://") || starts_with(base.as_str(), "https://") {
            string_from_chars(&bv)
        } else if starts_with(base.as_str(), "github:") {
            let mut u = String::new();
            push_str(&mut u, "https://github.com/");
            let rest = string_from_range(&bv, 7, bv.len());
            push_str(&mut u, rest.as_str());
            u
        } else if starts_with(base.as_str(), "gitlab:") {
            let mut u = String::new();
            push_str(&mut u, "https://gitlab.com/");
            let rest = string_from_range(&bv, 7, bv.len());
            push_str(&mut u, rest.as_str());
            u
        } else if find_first(&bv, '/').is_some() {
            let mut u = String::new();
            push_str(&mut u, "https://github.com/");
            push_str(&mut u, base.as_str());
            u
        } else {
            let mut msg = String::new();
            push_str(&mut msg, "Cannot parse package spec '");
            push_str(&mut msg, spec);
            push_str(&mut msg, "'.\n  Expected one of:\n  \u{2022} user/repo\n  \u{2022} user/repo@branch\n  \u{2022} github:user/repo\n  \u{2022} gitlab:user/repo\n  \u{2022} https://host/user/repo.git");
            return Err(msg);
        };
        assert(raw_url(base@) == Some(raw@));
        let rv = chars_of(raw.as_str());
        let end = trimmed_url(&rv);
        let clean = string_from_range(&rv, 0, end);
        let cv = chars_of(clean.as_str());
        proof { lemma_last_index_of(cv@, '/'); }
        let start = match find_last(&cv, '/') {
            Some(k) => k + 1,
            None => 0,
        };
        let repository = string_from_range(&cv, start, cv.len());
        let mut url = clean;
        push_str(&mut url, ".git");
        Ok(ParsedSpec { url, repository, branch })
    }
}

/// A letter or a digit of ASCII.
pub open spec fn is_ascii_alnum(c: char) -> bool {
    ('a' <= c && c <= 'z') || ('A' <= c && c <= 'Z') || ('0' <= c && c <= '9')
}

/// The character a repository name's character becomes in a module name:
/// letters in lower case, digits as they are, anything else `_`.
pub open spec fn module_char(c: char) -> char {
    if 'A' <= c && c <= 'Z' {
        ((c as int) + 32) as char
    } else if is_ascii_alnum(c) {
        c
    } else {
        '_'
    }
}

/// The module name made from a repository name: `module_char` of each
/// character, and a `_` in front when it would begin with a digit.
pub open spec fn spec_repo_to_module(repo: Seq<char>) -> Seq<char> {
    let m = repo.map_values(|c: char| module_char(c));
    if m.len() > 0 && '0' <= m[0] && m[0] <= '9' {
        seq!['_'] + m
    } else {
        m
    }
}

/// The module name made from a repository name, as in `zsh-autosuggestions`
/// to `zsh_autosuggestions`.
pub fn repo_to_module(repo_name: &str) -> (r: String)
    ensures
        r@ == spec_repo_to_module(repo_name@),
{
    let v = chars_of(repo_name);
    let mut out: Vec<char> = Vec::new();
    let mut i: usize = 0;
    while i < v.len()
        invariant
            v@ == repo_name@,
            i <= v@.len(),
            out@ == v@.take(i as int).map_values(|c: char| module_char(c)),
        decreases v.len() - i,
    {
        let c = v[i];
        let m = if 'A' <= c && c <= 'Z' {
            ((c as u8) + 32) as char
        } else if ('a' <= c && c <= 'z') || ('0' <= c && c <= '9') {
            c
        } else {
            '_'
        };
        out.push(m);
        assert(v@.take(i + 1).map_values(|c: char| module_char(c)) =~= v@.take(i as int).map_values(|c: char| module_char(c)).push(module_char(c)));
        i += 1;
    }
    assert(v@.take(v@.len() as int) == v@);
    if out.len() > 0 && '0' <= out[0] && out[0] <= '9' {
        let mut with: Vec<char> = Vec::new();
        with.push('_');
        let mut k: usize = 0;
        while k < out.len()
            invariant
                k <= out@.len(),
                with@ == seq!['_'] + out@.take(k as int),
            decreases out.len() - k,
        {
            with.push(out[k]);
            assert(out@.take(k + 1) == out@.take(k as int).push(out@[k as int]));
            k += 1;
        }
        assert(out@.take(out@.len() as int) == out@);
        string_from_chars(&with)
    } else {
        string_from_chars(&out)
    }
}

/// Whether `name` is a valid module name (`[a-zA-Z_][a-zA-Z0-9_]*`).
pub fn name_valid(name: &str) -> (r: bool)
    ensures
        r == is_valid_name(name@),
{
    crate::common::name_valid(name)
}

/// The `[source]` table written into an installed module's manifest.
pub open spec fn source_block(url: Seq<char>, branch: Option<Seq<char>>, pin: Option<Seq<char>>) -> Seq<char> {
    "[source]\n"@ + "url    = \""@ + url + "\"\n"@
        + match branch {
            Some(b) => "branch = \""@ + b + "\"\n"@,
            None => Seq::empty(),
        }
        + match pin {
            Some(p) => "pin    = \""@ + p + "\"\n"@,
            None => Seq::empty(),
        }
}

/// The `[source]` table for a module installed from `parsed`, at commit
/// `pin` when it is known.
pub fn build_source(parsed: &ParsedSpec, pin: Option<&str>) -> (r: String)
    ensures
        r@ == source_block(parsed.url@, opt_view(parsed.branch), match pin { Some(p) => Some(p@), None => None }),
{
    let mut s = String::new();
    push_str(&mut s, "[source]\n");
    push_str(&mut s, "url    = \"");
    push_str(&mut s, parsed.url.as_str());
    push_str(&mut s, "\"\n");
    let ghost a = s@;
    match &parsed.branch {
        Some(b) => {
            push_str(&mut s, "branch = \"");
            push_str(&mut s, b.as_str());
            push_str(&mut s, "\"\n");
        },
        None => {},
    }
    let ghost b = s@;
    match pin {
        Some(p) => {
            push_str(&mut s, "pin    = \"");
            push_str(&mut s, p);
            push_str(&mut s, "\"\n");
        },
        None => {},
    }
    s
}

/// The names among the first `hi` of `files` that end with `suffix`, leaving
/// out `init.zsh` when `skip_init` is set.
pub open spec fn names_ending(files: Seq<String>, suffix: Seq<char>, skip_init: bool, hi: int) -> Seq<Seq<char>>
    decreases hi,
{
    if hi <= 0 {
        Seq::empty()
    } else {
        let f = files[hi - 1]@;
        let prev = names_ending(files, suffix, skip_init, hi - 1);
        if has_suffix(f, suffix) && !(skip_init && f == "init.zsh"@) { prev.push(f) } else { prev }
    }
}

/// The main file of a plugin: `<repository>.zsh`, `.plugin.zsh` or
/// `.zsh-theme` among the directory's entries; else the only `.plugin.zsh`
/// file; else the only `.zsh` file other than `init.zsh`.
pub open spec fn main_file(entries: Seq<String>, files: Seq<String>, repository: Seq<char>) -> Option<Seq<char>> {
    let plugins = names_ending(files, ".plugin.zsh"@, false, files.len() as int);
    let scripts = names_ending(files, ".zsh"@, true, files.len() as int);
    if holds_text(entries, repository + ".zsh"@) {
        Some(repository + ".zsh"@)
    } else if holds_text(entries, repository + ".plugin.zsh"@) {
        Some(repository + ".plugin.zsh"@)
    } else if holds_text(entries, repository + ".zsh-theme"@) {
        Some(repository + ".zsh-theme"@)
    } else if plugins.len() == 1 {
        Some(plugins[0])
    } else if scripts.len() == 1 {
        Some(scripts[0])
    } else {
        None
    }
}

/// The only name of `files` ending with `suffix` (leaving out `init.zsh`
/// when `skip_init` is set), if there is exactly one.
fn only_ending(files: &Vec<String>, suffix: &str, skip_init: bool) -> (r: Option<String>)
    ensures
        match r {
            Some(f) => names_ending(files@, suffix@, skip_init, files@.len() as int).len() == 1
                && f@ == names_ending(files@, suffix@, skip_init, files@.len() as int)[0],
            None => names_ending(files@, suffix@, skip_init, files@.len() as int).len() != 1,
        },
{
    let mut count: usize = 0;
    let mut first: Option<String> = None;
    let mut i: usize = 0;
    while i < files.len()
        invariant
            i <= files@.len(),
            count == names_ending(files@, suffix@, skip_init, i as int).len(),
            count <= i,
            count > 0 ==> (first matches Some(f) && f@ == names_ending(files@, suffix@, skip_init, i as int)[0]),
        decreases files.len() - i,
    {
        let ghost prev = names_ending(files@, suffix@, skip_init, i as int);
        let f = &files[i];
        if ends_with(f.as_str(), suffix) && !(skip_init && str_equal(f.as_str(), "init.zsh")) {
            if count == 0 {
                first = Some(string_from_chars(&chars_of(f.as_str())));
            }
            count += 1;
            assert(names_ending(files@, suffix@, skip_init, i + 1) == prev.push(f@));
        }
        i += 1;
    }
    if count == 1 {
        first
    } else {
        None
    }
}

/// The main file of the plugin in a directory whose entries are `entries`
/// and whose plain files are `files`.
pub fn detect_main(entries: &Vec<String>, files: &Vec<String>, repository: &str) -> (r: Option<String>)
    ensures
        opt_view(r) == main_file(entries@, files@, repository@),
{
    let mut c1 = String::new();
    push_str(&mut c1, repository);
    push_str(&mut c1, ".zsh");
    if vec_holds_str(entries, c1.as_str()) {
        return Some(c1);
    }
    let mut c2 = String::new();
    push_str(&mut c2, repository);
    push_str(&mut c2, ".plugin.zsh");
    if vec_holds_str(entries, c2.as_str()) {
        return Some(c2);
    }
    let mut c3 = String::new();
    push_str(&mut c3, repository);
    push_str(&mut c3, ".zsh-theme");
    if vec_holds_str(entries, c3.as_str()) {
        return Some(c3);
    }
    if let Some(f) = only_ending(files, ".plugin.zsh", false) {
        return Some(f);
    }
    only_ending(files, ".zsh", true)
}

/// The name of a module's directory: the two-digit prefix, `_`, the name.
pub open spec fn module_dir_name(prefix: nat, name: Seq<char>) -> Seq<char> {
    decimal2(prefix) + seq!['_'] + name
}

/// The directory name `{prefix:02}_{name}` for a module.
pub fn dir_name_for(prefix: u32, name: &str) -> (r: String)
    ensures
        r@ == module_dir_name(prefix as nat, name@),
{
    let mut s = decimal2_string(prefix as u64);
    push_char(&mut s, '_');
    push_str(&mut s, name);
    s
}

} // verus!

verus! {

/// The first entry of `incoming` called `name`, or -1.
pub open spec fn first_incoming(incoming: Seq<(String, String)>, name: Seq<char>, hi: int) -> int
    decreases hi,
{
    if hi <= 0 {
        -1
    } else if first_incoming(incoming, name, hi - 1) >= 0 {
        first_incoming(incoming, name, hi - 1)
    } else if incoming[hi - 1].0@ == name {
        hi - 1
    } else {
        -1
    }
}

/// Why the module `name`, found in the directory `dir` of a collection,
/// cannot be installed next to the modules `s` and the collection's modules
/// `incoming` read before it: an invalid name, a module of that name
/// already there, or one of the collection read before.
pub open spec fn incoming_problem(incoming: Seq<(String, String)>, name: Seq<char>, dir: Seq<char>, s: Seq<crate::types::DiscoveredModule>) -> Option<Seq<char>> {
    let dup = first_incoming(incoming, name, incoming.len() as int);
    if !is_valid_name(name) {
        Some("Module name '"@ + name + "' in "@ + dir + " is not valid (must match [a-zA-Z_][a-zA-Z0-9_]*)."@)
    } else if crate::rename::first_called(s, name) >= 0 {
        Some("Module '"@ + name + "' already exists. Remove it with 'gai rm "@ + name + "' before reinstalling."@)
    } else if dup >= 0 {
        Some("Duplicate module name '"@ + name + "' found in both "@ + incoming[dup].1@ + " and "@ + dir + "."@)
    } else {
        None
    }
}

/// Checks the next module of a collection before it is installed.
pub fn check_incoming(incoming: &Vec<(String, String)>, name: &str, dir: &str, modules: &Vec<crate::types::DiscoveredModule>) -> (r: Result<(), String>)
    ensures
        match r {
            Ok(_) => incoming_problem(incoming@, name@, dir@, modules@) is None,
            Err(e) => incoming_problem(incoming@, name@, dir@, modules@) == Some(e@),
        },
{
    if !name_valid(name) {
        let mut e = String::new();
        push_str(&mut e, "Module name '");
        push_str(&mut e, name);
        push_str(&mut e, "' in ");
        push_str(&mut e, dir);
        push_str(&mut e, " is not valid (must match [a-zA-Z_][a-zA-Z0-9_]*).");
        return Err(e);
    }
    if crate::rename::find_module(modules, name).is_some() {
        let mut e = String::new();
        push_str(&mut e, "Module '");
        push_str(&mut e, name);
        push_str(&mut e, "' already exists. Remove it with 'gai rm ");
        push_str(&mut e, name);
        push_str(&mut e, "' before reinstalling.");
        return Err(e);
    }
    let mut j: usize = 0;
    while j < incoming.len()
        invariant
            j <= incoming@.len(),
            first_incoming(incoming@, name@, j as int) == -1,
            is_valid_name(name@),
            crate::rename::first_called(modules@, name@) < 0,
        decreases incoming.len() - j,
    {
        if str_equal(incoming[j].0.as_str(), name) {
            proof {
                assert(first_incoming(incoming@, name@, j + 1) == j);
                lemma_first_incoming_stays(incoming@, name@, j + 1, incoming@.len() as int);
            }
            let mut e = String::new();
            push_str(&mut e, "Duplicate module name '");
            push_str(&mut e, name);
            push_str(&mut e, "' found in both ");
            push_str(&mut e, incoming[j].1.as_str());
            push_str(&mut e, " and ");
            push_str(&mut e, dir);
            push_str(&mut e, ".");
            return Err(e);
        }
        j += 1;
    }
    Ok(())
}

proof fn lemma_first_incoming_stays(incoming: Seq<(String, String)>, name: Seq<char>, lo: int, hi: int)
    requires
        0 <= lo <= hi,
        first_incoming(incoming, name, lo) >= 0,
    ensures
        first_incoming(incoming, name, hi) == first_incoming(incoming, name, lo),
    decreases hi - lo,
{
    if hi > lo {
        lemma_first_incoming_stays(incoming, name, lo, hi - 1);
    }
}

/// The name a single module is installed under: the one given, or the one
/// made from the repository's name; it must be valid and not taken.
pub open spec fn single_name(name_override: Option<Seq<char>>, repository: Seq<char>, s: Seq<crate::types::DiscoveredModule>) -> Result<Seq<char>, Seq<char>> {
    let name = match name_override { Some(n) => n, None => spec_repo_to_module(repository) };
    if !is_valid_name(name) {
        Err("Derived module name '"@ + name + "' is not valid (must match [a-zA-Z_][a-zA-Z0-9_]*).\n  Use --name to provide a valid name."@)
    } else if crate::rename::first_called(s, name) >= 0 {
        Err("Module '"@ + name + "' already exists. Use 'gai update "@ + name + "' to pull the latest version."@)
    } else {
        Ok(name)
    }
}

/// The name a single module is installed under.
pub fn single_install_name(name_override: Option<String>, repository: &str, modules: &Vec<crate::types::DiscoveredModule>) -> (r: Result<String, String>)
    ensures
        match r {
            Ok(n) => single_name(opt_view(name_override), repository@, modules@) == Ok::<Seq<char>, Seq<char>>(n@),
            Err(e) => single_name(opt_view(name_override), repository@, modules@) == Err::<Seq<char>, Seq<char>>(e@),
        },
{
    let name = match name_override {
        Some(n) => n,
        None => repo_to_module(repository),
    };
    if !name_valid(name.as_str()) {
        let mut e = String::new();
        push_str(&mut e, "Derived module name '");
        push_str(&mut e, name.as_str());
        push_str(&mut e, "' is not valid (must match [a-zA-Z_][a-zA-Z0-9_]*).\n  Use --name to provide a valid name.");
        return Err(e);
    }
    if crate::rename::find_module(modules, name.as_str()).is_some() {
        let mut e = String::new();
        push_str(&mut e, "Module '");
        push_str(&mut e, name.as_str());
        push_str(&mut e, "' already exists. Use 'gai update ");
        push_str(&mut e, name.as_str());
        push_str(&mut e, "' to pull the latest version.");
        return Err(e);
    }
    Ok(name)
}

/// The manifest written for an installed repository that has none.
pub open spec fn installed_manifest(name: Seq<char>, url: Seq<char>, source: Seq<char>) -> Seq<char> {
    "[module]\nname        = \""@ + name + "\"\ndescription = \"Installed from "@ + url
        + "\"\nversion     = \"1.0.0\"\ndeps        = []\ntags        = []\nrequires_cmd     = []\nrequires_any_cmd = []\nimplicit    = false\n\n[api]\nfunctions    = []\nvariables    = []\ndefer_on_cmd = false\n\n"@
        + source
}

/// The manifest for an installed repository that has none.
pub fn manifest_for(name: &str, url: &str, source: &str) -> (r: String)
    ensures
        r@ == installed_manifest(name@, url@, source@),
{
    let mut s = String::new();
    push_str(&mut s, "[module]\nname        = \"");
    push_str(&mut s, name);
    push_str(&mut s, "\"\ndescription = \"Installed from ");
    push_str(&mut s, url);
    push_str(&mut s, "\"\nversion     = \"1.0.0\"\ndeps        = []\ntags        = []\nrequires_cmd     = []\nrequires_any_cmd = []\nimplicit    = false\n\n[api]\nfunctions    = []\nvariables    = []\ndefer_on_cmd = false\n\n");
    push_str(&mut s, source);
    s
}

/// The manifest with the `[source]` table added: the text without its
/// trailing white space, a newline, and the table; nothing when it already
/// has a `[source]` table.
pub open spec fn with_source(existing: Seq<char>, source: Seq<char>) -> Option<Seq<char>> {
    if crate::update::occurs_in(existing, "[source]"@) {
        None
    } else {
        Some(crate::text::trim_end(existing) + "\n"@ + source)
    }
}

/// Adds the `[source]` table to an installed module's manifest.
pub fn append_source(existing: &str, source: &str) -> (r: Option<String>)
    ensures
        opt_view(r) == with_source(existing@, source@),
{
    if crate::update::contains_str(existing, "[source]") {
        return None;
    }
    let v = chars_of(existing);
    let mut hi = v.len();
    assert(v@.subrange(0, hi as int) == v@);
    while hi > 0 && crate::text::space_char(v[hi - 1])
        invariant
            v@ == existing@,
            hi <= v@.len(),
            crate::text::trim_end(v@.subrange(0, hi as int)) == crate::text::trim_end(existing@),
        decreases hi,
    {
        assert(v@.subrange(0, hi as int).drop_last() == v@.subrange(0, hi - 1));
        hi -= 1;
    }
    let mut s = string_from_range(&v, 0, hi);
    push_str(&mut s, "\n");
    push_str(&mut s, source);
    Some(s)
}

/// The `init.zsh` written for an installed plugin: it sources the plugin's
/// main file, or, when none was found, says how to.
pub open spec fn installed_init(url: Seq<char>, main: Option<Seq<char>>) -> Seq<char> {
    match main {
        Some(f) => "# Auto-generated by gaiety install\n# Source: "@ + url + "\n\nsource \"${0:h}/"@ + f + "\"\n"@,
        None => "# Auto-generated by gaiety install\n# Source: "@ + url
            + "\n# TODO: source the main plugin file, e.g.:\n# source \"${0:h}/plugin.zsh\"\n"@,
    }
}

/// The `init.zsh` for an installed plugin whose main file is `main`.
pub fn init_for(url: &str, main: &Option<String>) -> (r: String)
    ensures
        r@ == installed_init(url@, opt_view(*main)),
{
    let mut s = String::new();
    push_str(&mut s, "# Auto-generated by gaiety install\n# Source: ");
    push_str(&mut s, url);
    match main {
        Some(f) => {
            push_str(&mut s, "\n\nsource \"${0:h}/");
            push_str(&mut s, f.as_str());
            push_str(&mut s, "\"\n");
        },
        None => {
            push_str(&mut s, "\n# TODO: source the main plugin file, e.g.:\n# source \"${0:h}/plugin.zsh\"\n");
        },
    }
    s
}

/// The dependencies, in order, that name a repository (`source`) and that
/// no module has the name of: (name, repository) pairs.
pub open spec fn missing_remote(s: Seq<crate::types::DiscoveredModule>, i_hi: int) -> Seq<(Seq<char>, Seq<char>)>
    decreases i_hi,
{
    if i_hi <= 0 {
        Seq::empty()
    } else {
        missing_remote(s, i_hi - 1) + missing_in(s, s[i_hi - 1], crate::graph::dep_count(s[i_hi - 1]))
    }
}

/// The missing dependencies among the first `k_hi` entries of module `m`.
pub open spec fn missing_in(s: Seq<crate::types::DiscoveredModule>, m: crate::types::DiscoveredModule, k_hi: int) -> Seq<(Seq<char>, Seq<char>)>
    decreases k_hi,
{
    if k_hi <= 0 {
        Seq::empty()
    } else {
        let d = m.manifest.module.deps@[k_hi - 1];
        let prev = missing_in(s, m, k_hi - 1);
        if d.source is Some && crate::rename::first_called(s, d.name@) < 0 {
            prev.push((d.name@, d.source->0@))
        } else {
            prev
        }
    }
}

/// The dependencies that name a repository and that no module has the name
/// of, as (name, repository) pairs: `gai install` installs them next.
pub fn missing_remote_deps(modules: &Vec<crate::types::DiscoveredModule>) -> (r: Vec<(String, String)>)
    ensures
        r@.map_values(|p: (String, String)| (p.0@, p.1@)) == missing_remote(modules@, modules@.len() as int),
{
    let mut r: Vec<(String, String)> = Vec::new();
    let mut i: usize = 0;
    while i < modules.len()
        invariant
            i <= modules@.len(),
            r@.map_values(|p: (String, String)| (p.0@, p.1@)) == missing_remote(modules@, i as int),
        decreases modules.len() - i,
    {
        let m = &modules[i];
        let deps = &m.manifest.module.deps;
        let ghost start = r@.map_values(|p: (String, String)| (p.0@, p.1@));
        let mut k: usize = 0;
        while k < deps.len()
            invariant
                i < modules@.len(),
                *m == modules@[i as int],
                deps@ == m.manifest.module.deps@,
                k <= deps@.len(),
                r@.map_values(|p: (String, String)| (p.0@, p.1@)) == start + missing_in(modules@, *m, k as int),
            decreases deps.len() - k,
        {
            let d = &deps[k];
            if let Some(src) = &d.source {
                if crate::rename::find_module(modules, d.name.as_str()).is_none() {
                    let mut a = String::new();
                    push_str(&mut a, d.name.as_str());
                    let mut b = String::new();
                    push_str(&mut b, src.as_str());
                    let ghost before = r@;
                    r.push((a, b));
                    assert(r@.map_values(|p: (String, String)| (p.0@, p.1@))
                        == before.map_values(|p: (String, String)| (p.0@, p.1@)).push((d.name@, src@)));
                }
            }
            k += 1;
        }
        i += 1;
    }
    r
}


/// How a cloned repository is installed: as one module, or as a collection
/// of modules, one per directory that holds a manifest.
#[derive(Clone, Copy, Debug, PartialEq, Eq, Structural)]
pub enum InstallKind {
    Single,
    Collection,
}

/// A repository with a manifest at its top, or with no module directories,
/// is installed as one module; otherwise as the collection of its module
/// directories.
pub fn install_kind(has_manifest: bool, collection_dirs: &Vec<String>) -> (k: InstallKind)
    ensures
        k == if has_manifest || collection_dirs@.len() == 0 { InstallKind::Single } else { InstallKind::Collection },
{
    if has_manifest || collection_dirs.len() == 0 {
        InstallKind::Single
    } else {
        InstallKind::Collection
    }
}

/// The message for a spec met again while installing dependencies.
pub open spec fn circular_message(spec: Seq<char>) -> Seq<char> {
    "Circular remote dependency detected for the spec: "@ + spec
}

/// Records that `spec` is being installed: a spec already recorded is
/// refused, as a circular dependency, and the list is left as it was.
pub fn enter_spec(visited: &mut Vec<String>, spec: &str) -> (r: Result<(), String>)
    ensures
        crate::text::holds_text(old(visited)@, spec@) ==> (r matches Err(e) && e@ == circular_message(spec@)
            && final(visited)@ == old(visited)@),
        !crate::text::holds_text(old(visited)@, spec@) ==> (r is Ok && final(visited)@.len() == old(visited)@.len() + 1
            && final(visited)@.take(old(visited)@.len() as int) == old(visited)@
            && final(visited)@.last()@ == spec@),
{
    if crate::text::vec_holds_str(visited, spec) {
        let mut message = "Circular remote dependency detected for the spec: ".to_string();
        crate::text::push_str(&mut message, spec);
        return Err(message);
    }
    let ghost before = visited@;
    visited.push(spec.to_string());
    assert(visited@.take(before.len() as int) =~= before);
    Ok(())
}

} // verus!
