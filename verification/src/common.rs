//! Small rules shared by the commands: module names, directory prefixes.
use vstd::prelude::*;
use crate::text::{chars_of, str_equal};
use crate::types::DiscoveredModule;
use crate::paths::{path_parent, parent_of};

verus! {

/// ASCII letters and digits, and `_`.
pub open spec fn is_ident_char(c: char) -> bool {
    ('a' <= c && c <= 'z') || ('A' <= c && c <= 'Z') || ('0' <= c && c <= '9') || c == '_'
}

/// ASCII letters and `_`.
pub open spec fn is_ident_start(c: char) -> bool {
    ('a' <= c && c <= 'z') || ('A' <= c && c <= 'Z') || c == '_'
}

/// A module name: `[a-zA-Z_][a-zA-Z0-9_]*`.
pub open spec fn is_valid_name(s: Seq<char>) -> bool {
    &&& s.len() > 0
    &&& is_ident_start(s[0])
    &&& forall|i: int| 1 <= i < s.len() ==> is_ident_char(#[trigger] s[i])
}

/// Whether `character` may appear in a module name.
pub fn valid_fn(character: char) -> (r: bool)
    ensures
        r == is_ident_char(character),
{
    ('a' <= character && character <= 'z') || ('A' <= character && character <= 'Z')
        || ('0' <= character && character <= '9') || character == '_'
}

/// Whether `name` is a valid module name.
pub fn name_valid(name: &str) -> (r: bool)
    ensures
        r == is_valid_name(name@),
{
    let v = chars_of(name);
    if v.len() == 0 {
        return false;
    }
    let c = v[0];
    if !(('a' <= c && c <= 'z') || ('A' <= c && c <= 'Z') || c == '_') {
        return false;
    }
    let mut i: usize = 1;
    while i < v.len()
        invariant
            v@ == name@,
            1 <= i <= v.len(),
            forall|j: int| 1 <= j < i ==> is_ident_char(#[trigger] v@[j]),
        decreases v.len() - i,
    {
        if !valid_fn(v[i]) {
            return false;
        }
        i += 1;
    }
    true
}

/// Whether a module lives in the directory that `next_prefix` looks at: the
/// one at `write_index` in the loader's list, or else the parent `directory`.
pub open spec fn in_write_directory(m: DiscoveredModule, write_index: Option<usize>, directory: Seq<char>) -> bool {
    match write_index {
        Some(index) => m.dir_index == index,
        None => path_parent(m.path@) == Some(directory),
    }
}

/// The largest directory prefix among the modules of the write directory, or 0.
pub open spec fn max_prefix(modules: Seq<DiscoveredModule>, write_index: Option<usize>, directory: Seq<char>) -> nat
    decreases modules.len(),
{
    if modules.len() == 0 {
        0
    } else {
        let rest = max_prefix(modules.drop_last(), write_index, directory);
        let m = modules.last();
        match m.prefix_order {
            Some(p) if in_write_directory(m, write_index, directory) && p > rest => p as nat,
            _ => rest,
        }
    }
}

pub proof fn lemma_max_prefix_bound(modules: Seq<DiscoveredModule>, write_index: Option<usize>, directory: Seq<char>)
    ensures
        max_prefix(modules, write_index, directory) <= u32::MAX,
    decreases modules.len(),
{
    if modules.len() > 0 {
        lemma_max_prefix_bound(modules.drop_last(), write_index, directory);
    }
}

/// The prefix for a new module in the write directory: one more than the
/// largest prefix found there.
pub fn next_prefix(modules: &[DiscoveredModule], write_index: Option<usize>, directory: &str) -> (r: u32)
    requires
        max_prefix(modules@, write_index, directory@) < u32::MAX,
    ensures
        r == max_prefix(modules@, write_index, directory@) + 1,
{
    let mut best: u32 = 0;
    let mut i: usize = 0;
    while i < modules.len()
        invariant
            i <= modules@.len(),
            best == max_prefix(modules@.take(i as int), write_index, directory@),
        decreases modules.len() - i,
    {
        let m = &modules[i];
        proof { assert(modules@.take(i + 1).drop_last() == modules@.take(i as int)); }
        let in_dir = match write_index {
            Some(index) => m.dir_index == index,
            None => match parent_of(&m.path) {
                Some(p) => str_equal(&p, directory),
                None => false,
            },
        };
        if in_dir {
            if let Some(p) = m.prefix_order {
                if p > best {
                    best = p;
                }
            }
        }
        i += 1;
    }
    proof { assert(modules@.take(modules@.len() as int) == modules@); }
    best + 1
}

} // verus!
