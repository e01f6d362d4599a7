//! Module versions and version constraints. Parsing and matching are done by
//! the `semver` crate; this module adds the lenient reading of short versions
//! (`1`, `1.2`) and the error messages.
use vstd::prelude::*;
use crate::text::{chars_of, push_str, string_from_range};

verus! {

#[verifier::external_type_specification]
#[verifier::external_body]
pub struct ExSemverVersion(semver::Version);

#[verifier::external_type_specification]
#[verifier::external_body]
pub struct ExSemverVersionReq(semver::VersionReq);

/// What `semver::Version::parse` gives for a text: the version's major,
/// minor and patch numbers, pre-release and build metadata, or the message of
/// the error.
pub uninterp spec fn semver_version_parse(text: Seq<char>) -> Result<(u64, u64, u64, Seq<char>, Seq<char>), Seq<char>>;

/// What `semver::VersionReq::parse` gives for a text: success, or the
/// message of the error.
pub uninterp spec fn semver_req_parse(text: Seq<char>) -> Result<(), Seq<char>>;

/// What `semver::VersionReq::matches` answers for the requirement parsed
/// from `req` and the version with the given fields.
pub uninterp spec fn semver_req_matches(req: Seq<char>, version: (u64, u64, u64, Seq<char>, Seq<char>)) -> bool;

/// A semantic version. Values are made only by `parse_semver`, so the plain
/// fields always describe the `semver::Version` held beside them.
#[derive(Debug, PartialEq, Eq)]
pub struct SemVer {
    major: u64,
    minor: u64,
    patch: u64,
    pre: String,
    build: String,
    parsed: semver::Version,
}

impl View for SemVer {
    type V = (u64, u64, u64, Seq<char>, Seq<char>);

    closed spec fn view(&self) -> (u64, u64, u64, Seq<char>, Seq<char>) {
        (self.major, self.minor, self.patch, self.pre@, self.build@)
    }
}

impl SemVer {
    pub fn major(&self) -> (r: u64)
        ensures
            r == self@.0,
    {
        self.major
    }

    pub fn minor(&self) -> (r: u64)
        ensures
            r == self@.1,
    {
        self.minor
    }

    pub fn patch(&self) -> (r: u64)
        ensures
            r == self@.2,
    {
        self.patch
    }

    pub fn pre(&self) -> (r: &str)
        ensures
            r@ == self@.3,
    {
        self.pre.as_str()
    }

    pub fn build(&self) -> (r: &str)
        ensures
            r@ == self@.4,
    {
        self.build.as_str()
    }

    /// The `semver` value this version holds, the one it was parsed into.
    pub closed spec fn held(&self) -> semver::Version {
        self.parsed
    }

    /// The `semver` value this version was parsed into.
    pub fn semver(&self) -> (r: &semver::Version)
        ensures
            *r == self.held(),
    {
        &self.parsed
    }
}

/// A version constraint, such as `>=1.0, <2.0`, with the text it was parsed
/// from.
#[derive(Debug)]
pub struct Requirement {
    text: String,
    parsed: semver::VersionReq,
}

impl View for Requirement {
    type V = Seq<char>;

    closed spec fn view(&self) -> Seq<char> {
        self.text@
    }
}

/// The part of a version text before its first `-` or `+`.
pub open spec fn version_base_end(s: Seq<char>) -> int
    decreases s.len(),
{
    if s.len() == 0 {
        0
    } else if s.last() == '-' || s.last() == '+' {
        let e = version_base_end(s.drop_last());
        if e < s.len() - 1 { e } else { s.len() - 1 }
    } else {
        let e = version_base_end(s.drop_last());
        if e < s.len() - 1 { e } else { s.len() as int }
    }
}

/// Number of `.` in a text.
pub open spec fn count_dots(s: Seq<char>) -> nat
    decreases s.len(),
{
    if s.len() == 0 {
        0
    } else {
        count_dots(s.drop_last()) + if s.last() == '.' { 1nat } else { 0nat }
    }
}

/// The text with its base (before the first `-` or `+`) filled up to three
/// dot-separated numbers with `.0`.
pub open spec fn pad_version(s: Seq<char>) -> Seq<char> {
    let e = version_base_end(s);
    let base = s.subrange(0, e);
    let rest = s.subrange(e, s.len() as int);
    let parts = count_dots(base) + 1;
    if parts == 1 {
        base + ".0.0"@ + rest
    } else if parts == 2 {
        base + ".0"@ + rest
    } else {
        s
    }
}

/// The version that `parse_version` reads from a text: the text itself when
/// `semver` accepts it, else the text padded by `pad_version`.
pub open spec fn lenient_version(s: Seq<char>) -> Result<(u64, u64, u64, Seq<char>, Seq<char>), Seq<char>> {
    if semver_version_parse(s) is Ok {
        semver_version_parse(s)
    } else {
        semver_version_parse(pad_version(s))
    }
}

/// `semver::Version::parse`, with the error carried as its message.
#[verifier::external_body]
fn parse_semver(text: &str) -> (res: Result<SemVer, String>)
    ensures
        match res {
            Ok(v) => semver_version_parse(text@) == Ok::<(u64, u64, u64, Seq<char>, Seq<char>), Seq<char>>(v@),
            Err(e) => semver_version_parse(text@) == Err::<(u64, u64, u64, Seq<char>, Seq<char>), Seq<char>>(e@),
        },
        res is Ok ==> count_dots(text@.subrange(0, version_base_end(text@))) == 2,
{
    match semver::Version::parse(text) {
        Ok(v) => Ok(SemVer {
            major: v.major,
            minor: v.minor,
            patch: v.patch,
            pre: v.pre.as_str().to_string(),
            build: v.build.as_str().to_string(),
            parsed: v,
        }),
        Err(e) => Err(e.to_string()),
    }
}

/// `semver::VersionReq::parse`, with the error carried as its message.
#[verifier::external_body]
fn parse_requirement(text: &str) -> (res: Result<Requirement, String>)
    ensures
        match res {
            Ok(r) => semver_req_parse(text@) == Ok::<(), Seq<char>>(()) && r@ == text@,
            Err(e) => semver_req_parse(text@) == Err::<(), Seq<char>>(e@),
        },
{
    match semver::VersionReq::parse(text) {
        Ok(req) => Ok(Requirement { text: text.to_string(), parsed: req }),
        Err(e) => Err(e.to_string()),
    }
}

/// `semver::VersionReq::matches`.
#[verifier::external_body]
fn requirement_matches(req: &Requirement, version: &SemVer) -> (res: bool)
    ensures
        res == semver_req_matches(req@, version@),
{
    req.parsed.matches(&version.parsed)
}

proof fn lemma_version_base_end(s: Seq<char>)
    ensures
        0 <= version_base_end(s) <= s.len(),
        version_base_end(s) < s.len() ==> (s[version_base_end(s)] == '-' || s[version_base_end(s)] == '+'),
        forall|j: int| 0 <= j < version_base_end(s) ==> s[j] != '-' && s[j] != '+',
    decreases s.len(),
{
    if s.len() > 0 {
        lemma_version_base_end(s.drop_last());
        assert forall|j: int| 0 <= j < version_base_end(s) implies s[j] != '-' && s[j] != '+' by {
            if j < s.len() - 1 {
                assert(s[j] == s.drop_last()[j]);
            }
        }
        if version_base_end(s) < s.len() && version_base_end(s) < s.len() - 1 {
            assert(s[version_base_end(s)] == s.drop_last()[version_base_end(s)]);
        }
    }
}

/// Counts the dots in `v[..hi]`.
fn count_dots_upto(v: &Vec<char>, hi: usize) -> (r: usize)
    requires
        hi <= v.len(),
    ensures
        r == count_dots(v@.subrange(0, hi as int)),
{
    let mut n: usize = 0;
    let mut i: usize = 0;
    while i < hi
        invariant
            i <= hi <= v.len(),
            n == count_dots(v@.subrange(0, i as int)),
            n <= i,
        decreases hi - i,
    {
        assert(v@.subrange(0, i + 1).drop_last() == v@.subrange(0, i as int));
        if v[i] == '.' {
            n += 1;
        }
        i += 1;
    }
    n
}

/// Reads a version, accepting the short forms `1` and `1.2` as `1.0.0` and
/// `1.2.0` (also with a pre-release or build part, as in `1.2-alpha`).
pub fn parse_version(string: &str) -> (res: Result<SemVer, String>)
    ensures
        match res {
            Ok(v) => lenient_version(string@) == Ok::<(u64, u64, u64, Seq<char>, Seq<char>), Seq<char>>(v@),
            Err(e) => lenient_version(string@) == Err::<(u64, u64, u64, Seq<char>, Seq<char>), Seq<char>>(e@),
        },
        count_dots(string@.subrange(0, version_base_end(string@))) < 2 ==> (match res {
            Ok(v) => semver_version_parse(pad_version(string@)) == Ok::<(u64, u64, u64, Seq<char>, Seq<char>), Seq<char>>(v@),
            Err(e) => semver_version_parse(pad_version(string@)) == Err::<(u64, u64, u64, Seq<char>, Seq<char>), Seq<char>>(e@),
        }),
{
    let first = parse_semver(string);
    if first.is_ok() {
        return first;
    }
    let v = chars_of(string);
    proof { lemma_version_base_end(v@); }
    let mut end: usize = 0;
    while end < v.len() && v[end] != '-' && v[end] != '+'
        invariant
            v@ == string@,
            end <= v.len(),
            forall|j: int| 0 <= j < end ==> v@[j] != '-' && v@[j] != '+',
            0 <= version_base_end(v@) <= v@.len(),
            version_base_end(v@) < v@.len() ==> (v@[version_base_end(v@)] == '-' || v@[version_base_end(v@)] == '+'),
            forall|j: int| 0 <= j < version_base_end(v@) ==> v@[j] != '-' && v@[j] != '+',
        decreases v.len() - end,
    {
        end += 1;
    }
    assert(end == version_base_end(v@));
    let dots = count_dots_upto(&v, end);
    let mut text = string_from_range(&v, 0, end);
    if dots == 0 {
        push_str(&mut text, ".0.0");
    } else if dots == 1 {
        push_str(&mut text, ".0");
    }
    let rest = string_from_range(&v, end, v.len());
    push_str(&mut text, rest.as_str());
    proof {
        if dots >= 2 {
            assert(v@.subrange(0, end as int) + v@.subrange(end as int, v@.len() as int) =~= v@);
        }
    }
    assert(text@ == pad_version(string@));
    parse_semver(text.as_str())
}

/// The same reading as `parse_version`.
pub fn parse_version_lenient(s: &str) -> (res: Result<SemVer, String>)
    ensures
        match res {
            Ok(v) => lenient_version(s@) == Ok::<(u64, u64, u64, Seq<char>, Seq<char>), Seq<char>>(v@),
            Err(e) => lenient_version(s@) == Err::<(u64, u64, u64, Seq<char>, Seq<char>), Seq<char>>(e@),
        },
{
    parse_version(s)
}

/// What `satisfies` answers: whether the version read leniently from
/// `version` meets `constraint`, or why one of the two could not be read.
pub open spec fn spec_satisfies(version: Seq<char>, constraint: Seq<char>) -> Result<bool, Seq<char>> {
    match lenient_version(version) {
        Err(e) => Err("invalid version '"@ + version + "': "@ + e),
        Ok(v) => match semver_req_parse(constraint) {
            Err(e) => Err("invalid constraint '"@ + constraint + "': "@ + e),
            Ok(_) => Ok(semver_req_matches(constraint, v)),
        },
    }
}

/// Whether the version `version` meets the constraint `constraint`.
pub fn satisfies(version: &str, constraint: &str) -> (res: Result<bool, String>)
    ensures
        match res {
            Ok(b) => spec_satisfies(version@, constraint@) == Ok::<bool, Seq<char>>(b),
            Err(e) => spec_satisfies(version@, constraint@) == Err::<bool, Seq<char>>(e@),
        },
{
    let parsed = match parse_version(version) {
        Ok(v) => v,
        Err(e) => {
            let mut msg = String::new();
            push_str(&mut msg, "invalid version '");
            push_str(&mut msg, version);
            push_str(&mut msg, "': ");
            push_str(&mut msg, e.as_str());
            return Err(msg);
        },
    };
    let req = match parse_requirement(constraint) {
        Ok(r) => r,
        Err(e) => {
            let mut msg = String::new();
            push_str(&mut msg, "invalid constraint '");
            push_str(&mut msg, constraint);
            push_str(&mut msg, "': ");
            push_str(&mut msg, e.as_str());
            return Err(msg);
        },
    };
    Ok(requirement_matches(&req, &parsed))
}

} // verus!
