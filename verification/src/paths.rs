//! File system paths, held as strings in normal form (components joined by
//! `/`, no empty or `.` components, a leading `/` for an absolute path).
use vstd::prelude::*;
use crate::text::{chars_of, push_char, push_str, string_from_range, find_last, last_index_of, lemma_last_index_of};

verus! {

/// The parent of a path in normal form, as `Path::parent` gives it.
pub open spec fn path_parent(p: Seq<char>) -> Option<Seq<char>> {
    if p.len() == 0 || p == seq!['/'] {
        None
    } else {
        let k = last_index_of(p, '/');
        if k < 0 {
            Some(Seq::empty())
        } else if k == 0 {
            Some(seq!['/'])
        } else {
            Some(p.subrange(0, k))
        }
    }
}

/// The last component of a path in normal form, as `Path::file_name` gives it.
pub open spec fn path_file_name(p: Seq<char>) -> Option<Seq<char>> {
    if p.len() == 0 || p == seq!['/'] {
        None
    } else {
        Some(p.subrange(last_index_of(p, '/') + 1, p.len() as int))
    }
}

/// `dir` joined with the relative component `name`.
pub open spec fn path_join(dir: Seq<char>, name: Seq<char>) -> Seq<char> {
    if dir.len() == 0 {
        name
    } else if dir.last() == '/' {
        dir + name
    } else {
        dir + seq!['/'] + name
    }
}

/// The parent directory of `path`.
pub fn parent_of(path: &str) -> (r: Option<String>)
    ensures
        match r {
            Some(s) => path_parent(path@) == Some(s@),
            None => path_parent(path@) is None,
        },
{
    let v = chars_of(path);
    if v.len() == 0 || (v.len() == 1 && v[0] == '/') {
        proof {
            if v.len() == 1 {
                assert(path@ =~= seq!['/']);
            }
        }
        return None;
    }
    assert(path@ != seq!['/']) by {
        if v.len() == 1 {
            assert(path@[0] != seq!['/'][0]);
        }
    }
    proof { lemma_last_index_of(v@, '/'); }
    match find_last(&v, '/') {
        None => Some(String::new()),
        Some(0) => {
            let mut s = String::new();
            push_char(&mut s, '/');
            assert(s@ =~= seq!['/']);
            Some(s)
        },
        Some(k) => Some(string_from_range(&v, 0, k)),
    }
}

/// The last component of `path`.
pub fn file_name_of(path: &str) -> (r: Option<String>)
    ensures
        match r {
            Some(s) => path_file_name(path@) == Some(s@),
            None => path_file_name(path@) is None,
        },
{
    let v = chars_of(path);
    if v.len() == 0 || (v.len() == 1 && v[0] == '/') {
        proof {
            if v.len() == 1 {
                assert(path@ =~= seq!['/']);
            }
        }
        return None;
    }
    assert(path@ != seq!['/']) by {
        if v.len() == 1 {
            assert(path@[0] != seq!['/'][0]);
        }
    }
    proof { lemma_last_index_of(v@, '/'); }
    let start = match find_last(&v, '/') {
        None => 0,
        Some(k) => k + 1,
    };
    Some(string_from_range(&v, start, v.len()))
}

/// `dir` joined with the relative component `name`.
pub fn join_path(dir: &str, name: &str) -> (r: String)
    ensures
        r@ == path_join(dir@, name@),
{
    let v = chars_of(dir);
    let mut out = dir.to_string();
    if v.len() != 0 && v[v.len() - 1] != '/' {
        push_char(&mut out, '/');
    }
    push_str(&mut out, name);
    proof {
        if v.len() != 0 {
            assert(v@.last() == dir@.last());
        }
    }
    out
}

} // verus!
