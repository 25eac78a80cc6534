//! Semantic versions and version ranges. Versions are plain
//! (major, minor, patch) triples ordered lexicographically; ranges keep
//! their textual form and are interpreted by the `semver` crate behind
//! trusted wrappers.

use vstd::prelude::*;

use crate::PackageName;

verus! {

/// A semantic version, reduced to its numeric triple.
#[derive(Debug, Clone, Copy, PartialEq, Eq, Structural)]
pub struct Version {
    pub major: u64,
    pub minor: u64,
    pub patch: u64,
}

impl Version {
    pub fn new(major: u64, minor: u64, patch: u64) -> (r: Version)
        ensures
            r == (Version { major, minor, patch }),
    {
        Version { major, minor, patch }
    }
}

/// Strict "precedes" order on versions: lexicographic on
/// (major, minor, patch).
pub open spec fn ver_lt(a: Version, b: Version) -> bool {
    ||| a.major < b.major
    ||| (a.major == b.major && a.minor < b.minor)
    ||| (a.major == b.major && a.minor == b.minor && a.patch < b.patch)
}

pub fn version_lt(a: &Version, b: &Version) -> (r: bool)
    ensures
        r == ver_lt(*a, *b),
{
    a.major < b.major || (a.major == b.major && (a.minor < b.minor || (a.minor == b.minor
        && a.patch < b.patch)))
}

/// No character of `s` is a line break.
pub open spec fn no_newline(s: Seq<char>) -> bool {
    forall|i: int| 0 <= i < s.len() ==> #[trigger] s[i] != '\n'
}

/// Whether semver's range grammar accepts `s`; stands for the success of
/// `semver::VersionReq::parse`, which depends on `s` alone.
pub uninterp spec fn req_wf(s: Seq<char>) -> bool;

/// Whether version (major, minor, patch) satisfies the range `s`; stands
/// for the result of `semver::VersionReq::matches`, which depends on the
/// range text and the version alone.
pub uninterp spec fn req_sat(s: Seq<char>, major: int, minor: int, patch: int) -> bool;

/// Relies on semver::VersionReq::parse: returns whether `s` is a
/// well-formed semantic-version range expression.
#[verifier::external_body]
fn req_parses(s: &str) -> (r: bool)
    ensures
        r == req_wf(s@),
{
    semver::VersionReq::parse(s).is_ok()
}

/// Relies on semver::VersionReq::parse and semver::VersionReq::matches:
/// returns whether the version `major.minor.patch` (no pre-release)
/// satisfies the range `s`. The `requires` keeps out text that semver's
/// grammar refuses, so the parse here cannot fail.
#[verifier::external_body]
fn req_matches(s: &str, major: u64, minor: u64, patch: u64) -> (r: bool)
    requires
        req_wf(s@),
    ensures
        r == req_sat(s@, major as int, minor as int, patch as int),
{
    match semver::VersionReq::parse(s) {
        Ok(req) => req.matches(&semver::Version::new(major, minor, patch)),
        Err(_) => false,
    }
}

/// A semantic-version range, kept in its textual form. Every value holds
/// text that semver's range grammar accepts and that contains no line
/// break, so it can stand on one line of the persisted state file.
#[derive(Debug, PartialEq, Eq)]
pub struct Constraint {
    text: String,
}

impl View for Constraint {
    type V = Seq<char>;

    closed spec fn view(&self) -> Seq<char> {
        self.text@
    }
}

impl Constraint {
    #[verifier::type_invariant]
    spec fn inv(self) -> bool {
        req_wf(self.text@) && no_newline(self.text@)
    }

    /// Validate `s` as a version range. Accepted exactly when semver's
    /// grammar accepts it and it contains no line break.
    pub fn parse(s: &str) -> (r: Option<Constraint>)
        ensures
            r is Some <==> (req_wf(s@) && no_newline(s@)),
            r matches Some(c) ==> c@ == s@,
    {
        let len = s.unicode_len();
        let mut i: usize = 0;
        while i < len
            invariant
                len == s@.len(),
                0 <= i <= len,
                forall|k: int| 0 <= k < i ==> #[trigger] s@[k] != '\n',
            decreases len - i,
        {
            if s.get_char(i) == '\n' {
                return None;
            }
            i += 1;
        }
        if req_parses(s) {
            Some(Constraint { text: s.to_owned() })
        } else {
            None
        }
    }

    /// Whether `v` satisfies this range.
    pub fn matches(&self, v: &Version) -> (r: bool)
        ensures
            r == req_sat(self@, v.major as int, v.minor as int, v.patch as int),
    {
        proof {
            use_type_invariant(self);
        }
        req_matches(self.text.as_str(), v.major, v.minor, v.patch)
    }

    /// The textual form of the range.
    pub fn as_str(&self) -> (r: &str)
        ensures
            r@ == self@,
    {
        self.text.as_str()
    }

    /// A fresh copy of the same range.
    pub fn duplicate(&self) -> (r: Constraint)
        ensures
            r@ == self@,
    {
        proof {
            use_type_invariant(self);
        }
        Constraint { text: self.text.clone() }
    }
}

/// A user's direct ask: one package name with the range its installed
/// version must satisfy.
#[derive(Debug)]
pub struct PackageRequest {
    pub name: PackageName,
    pub version: Constraint,
}

/// Pointwise equality of request lists, by the views of their parts.
pub open spec fn reqs_eq(a: Seq<PackageRequest>, b: Seq<PackageRequest>) -> bool {
    a.len() == b.len() && forall|i: int|
        0 <= i < a.len() ==> (#[trigger] a[i]).name@ == b[i].name@ && a[i].version@
            == b[i].version@
}

/// A fresh list with the same names and ranges.
pub fn duplicate_requests(v: &Vec<PackageRequest>) -> (r: Vec<PackageRequest>)
    ensures
        reqs_eq(r@, v@),
{
    let mut out: Vec<PackageRequest> = Vec::new();
    let mut i: usize = 0;
    while i < v.len()
        invariant
            0 <= i <= v@.len(),
            out@.len() == i,
            forall|k: int| 0 <= k < i ==> (#[trigger] out@[k]).name@ == v@[k].name@
                && out@[k].version@ == v@[k].version@,
        decreases v@.len() - i,
    {
        out.push(v[i].duplicate());
        i += 1;
    }
    out
}

impl PackageRequest {
    pub fn new(name: PackageName, version: Constraint) -> (r: PackageRequest)
        ensures
            r.name@ == name@,
            r.version@ == version@,
    {
        PackageRequest { name, version }
    }

    pub fn duplicate(&self) -> (r: PackageRequest)
        ensures
            r.name@ == self.name@,
            r.version@ == self.version@,
    {
        PackageRequest { name: self.name.duplicate(), version: self.version.duplicate() }
    }
}

} // verus!

