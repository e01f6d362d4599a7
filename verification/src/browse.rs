//! `gai browse`: the lines handed to fzf, and the module picked there.
use vstd::prelude::*;
use crate::types::{DiscoveredModule, ModuleStatus};
use crate::text::{chars_of, push_str, push_padded, pad_right, lines_of, trim_start, trim_end, is_space,
    find_from, first_index_of, lemma_first_index_is, lemma_first_index_none, strip_cr, string_from_range,
    skip_spaces, space_char};

verus! {

/// The coloured status column of a module in fzf.
pub open spec fn fzf_status(status: ModuleStatus) -> Seq<char> {
    match status {
        ModuleStatus::Loaded => "\x1b[32mloaded \x1b[0m"@,
        ModuleStatus::WarnDuplicateDep(_) => "\x1b[33mwarn   \x1b[0m"@,
        ModuleStatus::SkippedMissingCmd(_) | ModuleStatus::SkippedMissingAnyCmd(_) | ModuleStatus::SkippedMissingDep(_) => "\x1b[33mskipped\x1b[0m"@,
        ModuleStatus::SkippedCycle(_) | ModuleStatus::SkippedBadConstraint(_) | ModuleStatus::FailedManifest(_) => "\x1b[31merror  \x1b[0m"@,
    }
}

/// The line of a module in fzf: name, status, version and description.
pub open spec fn fzf_line(m: DiscoveredModule) -> Seq<char> {
    pad_right(m.name(), 18) + "  "@ + fzf_status(m.status) + "  \x1b[2m"@
        + pad_right("v"@ + m.manifest.module.version@, 10) + "\x1b[0m  \x1b[2m"@
        + match m.manifest.module.description { Some(d) => d@, None => "\u{2014}"@ }
        + "\x1b[0m\n"@
}

/// The lines of the first `hi` modules.
pub open spec fn fzf_lines(s: Seq<DiscoveredModule>, hi: int) -> Seq<char>
    decreases hi,
{
    if hi <= 0 { Seq::empty() } else { fzf_lines(s, hi - 1) + fzf_line(s[hi - 1]) }
}

/// The line of one module in fzf.
fn fzf_line_of(m: &DiscoveredModule) -> (r: String)
    ensures
        r@ == fzf_line(*m),
{
    let mut line = String::new();
    push_padded(&mut line, m.manifest.module.name.as_str(), 18);
    let ghost a = line@;
    push_str(&mut line, "  ");
    let status = match &m.status {
        ModuleStatus::Loaded => "\x1b[32mloaded \x1b[0m",
        ModuleStatus::WarnDuplicateDep(_) => "\x1b[33mwarn   \x1b[0m",
        ModuleStatus::SkippedMissingCmd(_) | ModuleStatus::SkippedMissingAnyCmd(_) | ModuleStatus::SkippedMissingDep(_) => "\x1b[33mskipped\x1b[0m",
        ModuleStatus::SkippedCycle(_) | ModuleStatus::SkippedBadConstraint(_) | ModuleStatus::FailedManifest(_) => "\x1b[31merror  \x1b[0m",
    };
    assert(status@ == fzf_status(m.status));
    push_str(&mut line, status);
    push_str(&mut line, "  \x1b[2m");
    let mut version = String::new();
    push_str(&mut version, "v");
    push_str(&mut version, m.manifest.module.version.as_str());
    push_padded(&mut line, version.as_str(), 10);
    push_str(&mut line, "\x1b[0m  \x1b[2m");
    let ghost b = line@;
    match &m.manifest.module.description {
        Some(d) => push_str(&mut line, d.as_str()),
        None => push_str(&mut line, "\u{2014}"),
    }
    push_str(&mut line, "\x1b[0m\n");
    assert(a == Seq::<char>::empty() + pad_right(m.name(), 18));
    line
}

/// The text handed to fzf: one line per module.
pub fn generate_fzf_input(modules: &Vec<DiscoveredModule>) -> (r: String)
    ensures
        r@ == fzf_lines(modules@, modules@.len() as int),
{
    let mut input = String::new();
    let mut i: usize = 0;
    while i < modules.len()
        invariant
            i <= modules@.len(),
            input@ == fzf_lines(modules@, i as int),
        decreases modules.len() - i,
    {
        let line = fzf_line_of(&modules[i]);
        push_str(&mut input, line.as_str());
        i += 1;
    }
    input
}

/// The text up to its first white space.
pub open spec fn first_word(t: Seq<char>) -> Seq<char>
    decreases t.len(),
{
    if t.len() == 0 || is_space(t[0]) { Seq::empty() } else { seq![t[0]] + first_word(t.drop_first()) }
}

/// The module picked in fzf: when the first line of its output is `enter`,
/// the first word of the second line.
pub open spec fn picked(out: Seq<char>) -> Option<Seq<char>> {
    let ls = lines_of(out);
    if ls.len() >= 1 && ls[0] == "enter"@ {
        let sel = trim_start(trim_end(if ls.len() >= 2 { ls[1] } else { Seq::empty() }));
        if sel.len() == 0 { None } else { Some(first_word(sel)) }
    } else {
        None
    }
}

/// The end of the line that starts at `lo`, and where the next one starts.
fn line_at(v: &Vec<char>, lo: usize) -> (r: (usize, usize, bool))
    requires
        lo < v@.len(),
    ensures
        lo <= r.0 <= v@.len(),
        lo < r.1 <= v@.len(),
        lines_of(v@.subrange(lo as int, v@.len() as int)).len() >= 1,
        lines_of(v@.subrange(lo as int, v@.len() as int))[0] == v@.subrange(lo as int, r.0 as int),
        r.2 ==> lines_of(v@.subrange(lo as int, v@.len() as int)).drop_first()
            == lines_of(v@.subrange(r.1 as int, v@.len() as int)),
        !r.2 ==> lines_of(v@.subrange(lo as int, v@.len() as int)).len() == 1,
{
    let n = v.len();
    let ghost rest = v@.subrange(lo as int, n as int);
    let k = find_from(v, lo, n, '\n');
    if k < n {
        proof {
            lemma_first_index_is(rest, '\n', k - lo);
            assert(lines_of(rest) == seq![strip_cr(rest.subrange(0, k - lo))] + lines_of(rest.subrange(k - lo + 1, rest.len() as int)));
            assert(rest.subrange(k - lo + 1, rest.len() as int) == v@.subrange(k + 1, n as int));
            assert(lines_of(rest).drop_first() == lines_of(v@.subrange(k + 1, n as int)));
        }
        if k > lo && v[k - 1] == '\r' {
            assert(strip_cr(rest.subrange(0, k - lo)) == v@.subrange(lo as int, k - 1));
            (k - 1, k + 1, true)
        } else {
            assert(strip_cr(rest.subrange(0, k - lo)) == v@.subrange(lo as int, k as int));
            (k, k + 1, true)
        }
    } else {
        proof {
            lemma_first_index_none(rest, '\n');
            assert(lines_of(rest) == seq![rest]);
        }
        (n, n, false)
    }
}

/// The module picked in fzf, from what fzf printed.
pub fn fzf_selection(output: &str) -> (r: Option<String>)
    ensures
        match r {
            Some(s) => picked(output@) == Some(s@),
            None => picked(output@) is None,
        },
{
    let v = chars_of(output);
    let n = v.len();
    assert(v@.subrange(0, n as int) == v@);
    if n == 0 {
        return None;
    }
    let (e1, next, more) = line_at(&v, 0);
    let key = string_from_range(&v, 0, e1);
    if !crate::text::str_equal(key.as_str(), "enter") {
        return None;
    }
    let ghost ls = lines_of(output@);
    // The bounds of the second line, or an empty range.
    let (lo2, hi2): (usize, usize) = if more && next < n {
        let (e2, _, _) = line_at(&v, next);
        assert(ls[1] == lines_of(v@.subrange(next as int, n as int))[0]);
        (next, e2)
    } else {
        if more {
            assert(lines_of(v@.subrange(n as int, n as int)).len() == 0);
        }
        (0, 0)
    };
    assert(v@.subrange(lo2 as int, hi2 as int) == if ls.len() >= 2 { ls[1] } else { Seq::empty() });
    // Trim the end, then the start.
    let mut hi = hi2;
    while hi > lo2 && space_char(v[hi - 1])
        invariant
            lo2 <= hi <= hi2 <= n == v@.len(),
            trim_end(v@.subrange(lo2 as int, hi as int)) == trim_end(v@.subrange(lo2 as int, hi2 as int)),
        decreases hi,
    {
        assert(v@.subrange(lo2 as int, hi as int).drop_last() == v@.subrange(lo2 as int, hi - 1));
        hi -= 1;
    }
    assert(v@.subrange(lo2 as int, hi as int) == trim_end(v@.subrange(lo2 as int, hi2 as int)));
    let lo = skip_spaces(&v, lo2, hi);
    if lo == hi {
        return None;
    }
    let mut w = lo;
    while w < hi && !space_char(v[w])
        invariant
            lo <= w <= hi <= n == v@.len(),
            first_word(v@.subrange(lo as int, hi as int)) == v@.subrange(lo as int, w as int) + first_word(v@.subrange(w as int, hi as int)),
        decreases hi - w,
    {
        assert(v@.subrange(w as int, hi as int).drop_first() == v@.subrange(w + 1, hi as int));
        assert(v@.subrange(lo as int, w + 1) == v@.subrange(lo as int, w as int).push(v@[w as int]));
        w += 1;
    }
    assert(first_word(v@.subrange(w as int, hi as int)) == Seq::<char>::empty());
    Some(string_from_range(&v, lo, w))
}

} // verus!
