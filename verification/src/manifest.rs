//! The contents of a module's `module.toml`, as the library sees them.
use vstd::prelude::*;
use vstd::string::*;


verus! {

/// The description given to a module whose manifest could not be read.
pub const DEFAULT_DESCRIPTION: &'static str = "<manifest could not be parsed>";

/// How a module's `init.zsh` is brought into the shell.
#[derive(Debug, Clone, Copy, PartialEq, Eq, Structural)]
pub enum LoadMode {
    Eager,
    Lazy,
    Event,
}

/// The `[load]` table.
#[derive(Debug, Clone, PartialEq)]
pub struct LoadMeta {
    pub load_mode: LoadMode,
    pub events: Vec<String>,
}

/// The `[source]` table written by `gai install`.
#[derive(Debug, Clone, PartialEq)]
pub struct SourceMeta {
    pub url: String,
    pub branch: Option<String>,
    pub pin: Option<String>,
}

/// One entry of `deps`.
#[derive(Debug, Clone, PartialEq)]
pub struct Dependency {
    pub name: String,
    pub version: Option<String>,
    pub source: Option<String>,
}

/// The `[module]` table.
#[derive(Debug, Clone, PartialEq)]
pub struct ModuleMeta {
    pub name: String,
    pub description: Option<String>,
    pub version: String,
    pub deps: Vec<Dependency>,
    pub tags: Vec<String>,
    pub requires_cmd: Vec<String>,
    pub requires_any_cmd: Vec<String>,
    pub implicit: Option<bool>,
    pub enabled: Option<bool>,
}

/// The `[api]` table. `aliases` and `completions` hold the table's entries as
/// (key, value) pairs.
#[derive(Debug, Clone, PartialEq)]
pub struct ApiMeta {
    pub functions: Vec<String>,
    pub variables: Vec<String>,
    pub aliases: Vec<(String, String)>,
    pub completions: Vec<(String, String)>,
    pub defer_on_cmd: bool,
}

/// A whole manifest.
#[derive(Debug, Clone, PartialEq)]
pub struct Manifest {
    pub module: ModuleMeta,
    pub api: ApiMeta,
    pub load: Option<LoadMeta>,
    pub source: Option<SourceMeta>,
}

/// The value `enabled` takes when the manifest does not set it.
pub fn default_enabled() -> (r: Option<bool>)
    ensures
        r == Some(true),
{
    Some(true)
}

impl ApiMeta {
    /// An `[api]` table with nothing in it.
    pub fn empty() -> (r: ApiMeta)
        ensures
            r.functions@.len() == 0,
            r.variables@.len() == 0,
            r.aliases@.len() == 0,
            r.completions@.len() == 0,
            !r.defer_on_cmd,
    {
        ApiMeta {
            functions: Vec::new(),
            variables: Vec::new(),
            aliases: Vec::new(),
            completions: Vec::new(),
            defer_on_cmd: false,
        }
    }
}

/// The placeholder manifest for a module directory called `dir_name`.
pub open spec fn broken_manifest(r: Manifest, dir_name: Seq<char>) -> bool {
    &&& r.module.name@ == dir_name
    &&& r.module.description matches Some(d) && d@ == DEFAULT_DESCRIPTION@
    &&& r.module.version@ == "0.0.0"@
    &&& r.module.deps@.len() == 0
    &&& r.module.tags@.len() == 0
    &&& r.module.requires_cmd@.len() == 0
    &&& r.module.requires_any_cmd@.len() == 0
    &&& r.module.implicit is None
    &&& r.module.enabled == Some(true)
    &&& r.api.functions@.len() == 0
    &&& r.api.variables@.len() == 0
    &&& r.api.aliases@.len() == 0
    &&& r.api.completions@.len() == 0
    &&& !r.api.defer_on_cmd
    &&& r.load is None
    &&& r.source is None
}

impl Manifest {
    /// The placeholder manifest of a module whose `module.toml` could not be
    /// parsed: it carries the directory name and nothing else.
    pub fn broken(dir_name: String) -> (r: Manifest)
        ensures
            broken_manifest(r, dir_name@),
    {
        Manifest {
            module: ModuleMeta {
                name: dir_name,
                description: Some(DEFAULT_DESCRIPTION.to_string()),
                version: "0.0.0".to_string(),
                deps: Vec::new(),
                tags: Vec::new(),
                requires_cmd: Vec::new(),
                requires_any_cmd: Vec::new(),
                implicit: None,
                enabled: default_enabled(),
            },
            api: ApiMeta::empty(),
            load: None,
            source: None,
        }
    }

    /// The load mode of the module: that of the `[load]` table, or eager when
    /// there is none.
    pub fn load_mode(&self) -> (r: LoadMode)
        ensures
            r == (match self.load {
                Some(l) => l.load_mode,
                None => LoadMode::Eager,
            }),
    {
        match &self.load {
            Some(l) => l.load_mode,
            None => LoadMode::Eager,
        }
    }
}


/// A character in lower case, as far as ASCII letters go.
pub open spec fn ascii_lower(c: char) -> char {
    if 'A' <= c && c <= 'Z' { ((c as int) + 32) as char } else { c }
}

/// The load mode a `load_mode` text names: the text without surrounding
/// white space, in lower case, is `eager`, `lazy` or `event`. (Only ASCII
/// letters lower to the letters of these words, so lowering the ASCII
/// letters alone decides the same as lowering every character.)
pub open spec fn named_load_mode(text: Seq<char>) -> Option<LoadMode> {
    let w = crate::text::trim_start(crate::text::trim_end(text)).map_values(|c: char| ascii_lower(c));
    if w == "eager"@ {
        Some(LoadMode::Eager)
    } else if w == "lazy"@ {
        Some(LoadMode::Lazy)
    } else if w == "event"@ {
        Some(LoadMode::Event)
    } else {
        None
    }
}

/// Reads a `load_mode` value: `eager`, `lazy` or `event`, in any case and
/// with surrounding white space; anything else is refused with the text.
pub fn parse_load_mode(text: &str) -> (r: Result<LoadMode, String>)
    ensures
        match named_load_mode(text@) {
            Some(m) => r == Ok::<LoadMode, String>(m),
            None => r matches Err(e) && e@ == "invalid load_mode: "@ + text@,
        },
{
    let v = crate::text::chars_of(text);
    let mut hi: usize = v.len();
    assert(v@.subrange(0, hi as int) == v@);
    while hi > 0 && crate::text::space_char(v[hi - 1])
        invariant
            hi <= v@.len(),
            crate::text::trim_end(v@.subrange(0, hi as int)) == crate::text::trim_end(v@),
        decreases hi,
    {
        assert(v@.subrange(0, hi as int).drop_last() == v@.subrange(0, hi - 1));
        hi -= 1;
    }
    assert(crate::text::trim_end(v@.subrange(0, hi as int)) == v@.subrange(0, hi as int));
    let lo = crate::text::skip_spaces(&v, 0, hi);
    let mut w: Vec<char> = Vec::new();
    let mut i: usize = lo;
    while i < hi
        invariant
            lo <= i <= hi <= v@.len(),
            w@ == v@.subrange(lo as int, i as int).map_values(|c: char| ascii_lower(c)),
        decreases hi - i,
    {
        let c = v[i];
        let l = if 'A' <= c && c <= 'Z' { ((c as u8) + 32) as char } else { c };
        proof {
            assert(v@.subrange(lo as int, i + 1) == v@.subrange(lo as int, i as int).push(c));
        }
        w.push(l);
        i += 1;
    }
    proof {
        assert(v@.subrange(lo as int, hi as int) == crate::text::trim_start(crate::text::trim_end(text@)));
    }
    if crate::text::chars_equal(&w, &crate::text::chars_of("eager")) {
        Ok(LoadMode::Eager)
    } else if crate::text::chars_equal(&w, &crate::text::chars_of("lazy")) {
        Ok(LoadMode::Lazy)
    } else if crate::text::chars_equal(&w, &crate::text::chars_of("event")) {
        Ok(LoadMode::Event)
    } else {
        let mut e = "invalid load_mode: ".to_string();
        crate::text::push_str(&mut e, text);
        Err(e)
    }
}

} // verus!
