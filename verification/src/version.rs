use vstd::prelude::*;

use crate::text::{chars_of, str_eq, trim, trim_spec};

verus! {

#[verifier::external_type_specification]
#[verifier::external_body]
pub struct ExSemverVersion(semver::Version);

#[verifier::external_type_specification]
#[verifier::external_body]
pub struct ExSemverVersionReq(semver::VersionReq);

/// What `semver::Version::parse` makes of `text`: major, minor, patch,
/// pre-release and build metadata, or `None` when `text` is not a version.
pub uninterp spec fn semver_version(text: Seq<char>) -> Option<(u64, u64, u64, Seq<char>, Seq<char>)>;

/// Whether `semver::VersionReq::parse` accepts `text`.
pub uninterp spec fn semver_req_valid(text: Seq<char>) -> bool;

/// What `semver::VersionReq::matches` answers for the requirement parsed
/// from `req` and the version with the given parts.
pub uninterp spec fn semver_matches(req: Seq<char>, version: (u64, u64, u64, Seq<char>, Seq<char>)) -> bool;

/// A semantic version of a package.
#[derive(Debug)]
pub struct PkgVersion {
    major: u64,
    minor: u64,
    patch: u64,
    pre: String,
    build: String,
    raw: semver::Version,
}

/// A version constraint as `semver` understands it, with its text.
#[derive(Debug)]
pub struct Constraint {
    text: String,
    raw: semver::VersionReq,
}

/// Calls `semver::Version::parse`; on success the parts of the result are
/// `semver_version(text)`, on failure `semver_version(text)` is `None`.
#[verifier::external_body]
fn semver_parse_version(text: &str) -> (r: Option<PkgVersion>)
    ensures
        match semver_version(text@) {
            Some(p) => r is Some && r->0.parts() == p,
            None => r is None,
        },
{
    match semver::Version::parse(text) {
        Ok(v) => Some(PkgVersion {
            major: v.major,
            minor: v.minor,
            patch: v.patch,
            pre: v.pre.as_str().to_string(),
            build: v.build.as_str().to_string(),
            raw: v,
        }),
        Err(_) => None,
    }
}

/// Calls `semver::VersionReq::parse`; it succeeds exactly when
/// `semver_req_valid(text)`, and the constraint keeps `text`.
#[verifier::external_body]
fn semver_parse_req(text: &str) -> (r: Option<Constraint>)
    ensures
        r is Some == semver_req_valid(text@),
        r matches Some(c) ==> c.text_spec() == text@,
{
    match semver::VersionReq::parse(text) {
        Ok(raw) => Some(Constraint { text: text.to_string(), raw }),
        Err(_) => None,
    }
}

/// Calls `semver::VersionReq::matches` on the requirement parsed from the
/// constraint's text and the version parsed into `v`.
#[verifier::external_body]
fn semver_req_matches(c: &Constraint, v: &PkgVersion) -> (r: bool)
    ensures
        r == semver_matches(c.text_spec(), v.parts()),
{
    c.raw.matches(&v.raw)
}

impl PkgVersion {
    /// Major, minor, patch, pre-release and build metadata.
    pub closed spec fn parts(&self) -> (u64, u64, u64, Seq<char>, Seq<char>) {
        (self.major, self.minor, self.patch, self.pre@, self.build@)
    }

    /// Parses `text` as a semantic version.
    pub fn parse(text: &str) -> (r: Option<PkgVersion>)
        ensures
            match semver_version(text@) {
                Some(p) => r is Some && r->0.parts() == p,
                None => r is None,
            },
    {
        semver_parse_version(text)
    }

    pub fn major(&self) -> (r: u64)
        ensures
            r == self.parts().0,
    {
        self.major
    }

    pub fn minor(&self) -> (r: u64)
        ensures
            r == self.parts().1,
    {
        self.minor
    }

    pub fn patch(&self) -> (r: u64)
        ensures
            r == self.parts().2,
    {
        self.patch
    }

    pub fn pre(&self) -> (r: &String)
        ensures
            r@ == self.parts().3,
    {
        &self.pre
    }

    pub fn build(&self) -> (r: &String)
        ensures
            r@ == self.parts().4,
    {
        &self.build
    }

    /// Whether the two versions are the same (all parts equal).
    pub fn same_as(&self, other: &PkgVersion) -> (r: bool)
        ensures
            r == (self.parts() == other.parts()),
    {
        self.major == other.major && self.minor == other.minor && self.patch == other.patch
            && str_eq(self.pre.as_str(), other.pre.as_str()) && str_eq(
            self.build.as_str(),
            other.build.as_str(),
        )
    }
}

impl Constraint {
    /// The constraint's text, as given to `semver`.
    pub closed spec fn text_spec(&self) -> Seq<char> {
        self.text@
    }

    /// The constraint's text, as given to `semver`.
    pub fn text(&self) -> (r: &String)
        ensures
            r@ == self.text_spec(),
    {
        &self.text
    }

    /// Parses a constraint already in `semver` syntax.
    pub fn parse(text: &str) -> (r: Option<Constraint>)
        ensures
            r is Some == semver_req_valid(text@),
            r matches Some(c) ==> c.text_spec() == text@,
    {
        semver_parse_req(text)
    }

    /// Whether `v` satisfies the constraint.
    pub fn matches(&self, v: &PkgVersion) -> (r: bool)
        ensures
            r == semver_matches(self.text_spec(), v.parts()),
    {
        semver_req_matches(self, v)
    }
}

/// `s` with every `*` written as `x`.
pub open spec fn star_to_x(s: Seq<char>) -> Seq<char> {
    s.map_values(|c: char| if c == '*' { 'x' } else { c })
}

/// A dependency constraint as written in a manifest, in `semver` syntax:
/// surrounding white space removed, `*` wildcards written `x`, and a bare
/// version (one that starts with a digit) made exact with `=`.
pub open spec fn normalize_constraint_spec(c: Seq<char>) -> Seq<char> {
    let t = star_to_x(trim_spec(c));
    if t.len() > 0 && '0' <= t[0] && t[0] <= '9' {
        seq!['='] + t
    } else {
        t
    }
}

/// Writes a manifest constraint in `semver` syntax (see
/// `normalize_constraint_spec`).
pub fn normalize_constraint(c: &str) -> (r: String)
    ensures
        r@ == normalize_constraint_spec(c@),
{
    let t = trim(c);
    let v = chars_of(t.as_str());
    let n = v.len();
    let mut out = String::new();
    let ghost target = star_to_x(t@);
    if n > 0 && '0' <= v[0] && v[0] <= '9' {
        out.append("=");
        proof {
            reveal_strlit("=");
        }
    }
    let ghost prefix = out@;
    let mut i: usize = 0;
    let mut run: usize = 0;
    while i < n
        invariant
            n == v@.len(),
            v@ == t@,
            run <= i <= n,
            target == star_to_x(t@),
            out@ == prefix + target.subrange(0, run as int),
            forall|k: int| run <= k < i ==> v@[k] != '*',
        decreases n - i,
    {
        if v[i] == '*' {
            let piece = crate::text::substring(t.as_str(), run, i);
            out.append(piece.as_str());
            out.append("x");
            proof {
                reveal_strlit("x");
                assert(target.subrange(0, i + 1) =~= target.subrange(0, run as int) + piece@ + seq!['x']);
            }
            run = i + 1;
        }
        i = i + 1;
    }
    let piece = crate::text::substring(t.as_str(), run, n);
    out.append(piece.as_str());
    proof {
        assert(target.subrange(0, n as int) =~= target.subrange(0, run as int) + piece@);
        assert(target.subrange(0, n as int) =~= target);
        if n > 0 && '0' <= v@[0] && v@[0] <= '9' {
            assert(out@ =~= seq!['='] + target);
        } else {
            assert(out@ =~= target);
        }
    }
    out
}

} // verus!
