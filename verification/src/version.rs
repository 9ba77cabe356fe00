//! Versions and version requirements, as the `semver` crate reads, orders and matches them.

use crate::text::{decimal, decimal_of, joined};
use vstd::prelude::*;
use vstd::string::*;

verus! {

/// What a [`Version`] holds: its three numbers, and the pre-release and the build
/// without their leading `-` and `+`, empty where there is none.
#[verifier::ext_equal]
pub struct VersionView {
    pub major: u64,
    pub minor: u64,
    pub patch: u64,
    pub pre: Seq<char>,
    pub build: Seq<char>,
}

/// What `semver::Version::parse` makes of a text: the version that it reads, or the
/// message of its error.
pub uninterp spec fn semver_version(text: Seq<char>) -> Result<VersionView, Seq<char>>;

/// What `semver::VersionReq::parse` makes of a text: the requirement that it reads, in
/// the notation in which it prints, or the message of its error.
pub uninterp spec fn semver_req(text: Seq<char>) -> Result<Seq<char>, Seq<char>>;

/// Whether `semver::VersionReq::matches` lets the requirement with this notation accept
/// the version.
pub uninterp spec fn req_accepts(notation: Seq<char>, version: VersionView) -> bool;

/// The rank that the order of `semver::Version` gives to a pre-release and a build among
/// versions whose three numbers are the same.
pub uninterp spec fn suffix_rank(pre: Seq<char>, build: Seq<char>) -> Seq<int>;

/// The three numbers of a version with dots between them, and its pre-release.
pub open spec fn release_text(v: VersionView) -> Seq<char> {
    let numbers = decimal_of(v.major as nat) + "."@ + decimal_of(v.minor as nat) + "."@
        + decimal_of(v.patch as nat);
    if v.pre.len() == 0 {
        numbers
    } else {
        numbers + "-"@ + v.pre
    }
}

/// A version in writing.
pub open spec fn version_text(v: VersionView) -> Seq<char> {
    if v.build.len() == 0 {
        release_text(v)
    } else {
        release_text(v) + "+"@ + v.build
    }
}

/// The characters that versions are written in.
pub open spec fn version_char(c: char) -> bool {
    'a' <= c <= 'z' || 'A' <= c <= 'Z' || '0' <= c <= '9' || c == '.' || c == '-' || c == '+'
}

/// Whether `s` holds no character but those that versions are written in.
pub open spec fn in_version_chars(s: Seq<char>) -> bool {
    forall|i: int| 0 <= i < s.len() ==> version_char(#[trigger] s[i])
}

/// Whether `v` is a version: what is written for it reads as `v`.
pub open spec fn is_version(v: VersionView) -> bool {
    &&& semver_version(version_text(v)) == Ok::<VersionView, Seq<char>>(v)
    &&& in_version_chars(version_text(v))
}

/// Whether `notation` is a requirement as it prints.
pub open spec fn is_req(notation: Seq<char>) -> bool {
    semver_req(notation) == Ok::<Seq<char>, Seq<char>>(notation)
}

/// Whether two versions differ at most in their build.
pub open spec fn same_release(a: VersionView, b: VersionView) -> bool {
    a.major == b.major && a.minor == b.minor && a.patch == b.patch && a.pre == b.pre
}

/// The requirement that pins `v`, in its notation.
pub open spec fn pin_notation(v: VersionView) -> Seq<char> {
    "="@ + release_text(v)
}

/// The order of sequences of integers: the first place at which they differ decides, and
/// a sequence comes before those that it begins.
pub open spec fn rank_leq(a: Seq<int>, b: Seq<int>) -> bool
    decreases a.len(),
{
    if a.len() == 0 {
        true
    } else if b.len() == 0 {
        false
    } else if a[0] == b[0] {
        rank_leq(a.drop_first(), b.drop_first())
    } else {
        a[0] < b[0]
    }
}

/// The order of two versions by their numbers from the left; where these agree, `suffixes`
/// decides.
pub open spec fn leq_by(a: VersionView, b: VersionView, suffixes: bool) -> bool {
    if a.major != b.major {
        a.major < b.major
    } else if a.minor != b.minor {
        a.minor < b.minor
    } else if a.patch != b.patch {
        a.patch < b.patch
    } else {
        suffixes
    }
}

/// The order of versions: by their numbers from the left, and where these agree, by the
/// rank of pre-release and build.
pub open spec fn version_leq(a: VersionView, b: VersionView) -> bool {
    leq_by(a, b, rank_leq(suffix_rank(a.pre, a.build), suffix_rank(b.pre, b.build)))
}

/// Whether two versions have the same numbers and just one of them has a pre-release.
pub open spec fn one_is_released(a: VersionView, b: VersionView) -> bool {
    a.major == b.major && a.minor == b.minor && a.patch == b.patch && (a.pre.len() == 0) != (
    b.pre.len() == 0)
}

/// The version that `text` reads as, where it reads as one.
pub open spec fn version_in(text: Seq<char>) -> VersionView {
    semver_version(text)->Ok_0
}

proof fn lemma_rank_total(a: Seq<int>, b: Seq<int>)
    ensures
        rank_leq(a, b) || rank_leq(b, a),
    decreases a.len(),
{
    if a.len() > 0 && b.len() > 0 && a[0] == b[0] {
        lemma_rank_total(a.drop_first(), b.drop_first());
    }
}

proof fn lemma_rank_transitive(a: Seq<int>, b: Seq<int>, c: Seq<int>)
    requires
        rank_leq(a, b),
        rank_leq(b, c),
    ensures
        rank_leq(a, c),
    decreases a.len(),
{
    if a.len() > 0 && b.len() > 0 && c.len() > 0 && a[0] == b[0] && b[0] == c[0] {
        lemma_rank_transitive(a.drop_first(), b.drop_first(), c.drop_first());
    }
}

/// Of two versions one comes before the other or ranks with it.
pub proof fn versions_are_ordered(a: VersionView, b: VersionView)
    ensures
        version_leq(a, b) || version_leq(b, a),
{
    lemma_rank_total(suffix_rank(a.pre, a.build), suffix_rank(b.pre, b.build));
}

/// The order of versions is transitive.
pub proof fn version_order_is_transitive(a: VersionView, b: VersionView, c: VersionView)
    requires
        version_leq(a, b),
        version_leq(b, c),
    ensures
        version_leq(a, c),
{
    if a.major == b.major && b.major == c.major && a.minor == b.minor && b.minor == c.minor
        && a.patch == b.patch && b.patch == c.patch {
        lemma_rank_transitive(
            suffix_rank(a.pre, a.build),
            suffix_rank(b.pre, b.build),
            suffix_rank(c.pre, c.build),
        );
    }
}

/// A version: `major.minor.patch`, with a pre-release and a build where it has them.
#[derive(Debug, PartialEq, Eq)]
pub struct Version {
    major: u64,
    minor: u64,
    patch: u64,
    pre: String,
    build: String,
}

impl DeepView for Version {
    type V = VersionView;

    closed spec fn deep_view(&self) -> VersionView {
        VersionView {
            major: self.major,
            minor: self.minor,
            patch: self.patch,
            pre: self.pre@,
            build: self.build@,
        }
    }
}

/// Calls `semver::Version::parse`, which depends on the text alone. What it accepts is
/// what the version prints as, in ASCII letters, digits, dots, hyphens and plus signs;
/// the parts come back as plain values.
#[verifier::external_body]
fn read_version(text: &str) -> (r: Result<(u64, u64, u64, String, String), String>)
    ensures
        match r {
            Ok(parts) => {
                let v = VersionView {
                    major: parts.0,
                    minor: parts.1,
                    patch: parts.2,
                    pre: parts.3@,
                    build: parts.4@,
                };
                semver_version(text@) == Ok::<VersionView, Seq<char>>(v) && text@ == version_text(v)
                    && in_version_chars(text@)
            },
            Err(message) => semver_version(text@) == Err::<VersionView, Seq<char>>(message@),
        },
{
    semver::Version::parse(text)
        .map(|v| (v.major, v.minor, v.patch, v.pre.to_string(), v.build.to_string()))
        .map_err(|e| e.to_string())
}

/// Compares two versions with the order of `semver::Version`: the numbers decide from the
/// left; where they agree, pre-release and build do, and a version without a pre-release
/// comes after one with a pre-release.
#[verifier::external_body]
fn version_at_most(a: &str, b: &str) -> (r: bool)
    requires
        semver_version(a@) is Ok,
        semver_version(b@) is Ok,
    ensures
        r == leq_by(
            version_in(a@),
            version_in(b@),
            rank_leq(
                suffix_rank(version_in(a@).pre, version_in(a@).build),
                suffix_rank(version_in(b@).pre, version_in(b@).build),
            ),
        ),
        one_is_released(version_in(a@), version_in(b@)) ==> r == (version_in(b@).pre.len() == 0),
{
    semver::Version::parse(a).unwrap() <= semver::Version::parse(b).unwrap()
}

/// Calls `semver::VersionReq::parse`, which depends on the text alone; the requirement
/// comes back in the notation in which it prints, which reads as the same requirement.
/// `*` is a requirement, and so is `=` before any version: it keeps all but the build.
#[verifier::external_body]
fn read_req(text: &str) -> (r: Result<String, String>)
    ensures
        match r {
            Ok(notation) => semver_req(text@) == Ok::<Seq<char>, Seq<char>>(notation@) && is_req(
                notation@,
            ),
            Err(message) => semver_req(text@) == Err::<Seq<char>, Seq<char>>(message@),
        },
        text@ == "*"@ ==> r is Ok && r->Ok_0@ == "*"@,
        forall|v: VersionView| #[trigger]
            is_version(v) && text@ == "="@ + version_text(v) ==> r is Ok && r->Ok_0@
                == pin_notation(v),
{
    semver::VersionReq::parse(text).map(|req| req.to_string()).map_err(|e| e.to_string())
}

/// Calls `semver::VersionReq::matches`, which depends on the requirement and the version
/// alone. `*` accepts the versions without a pre-release; a pinned version accepts itself,
/// whatever the build, and nothing else.
#[verifier::external_body]
fn req_matches(notation: &str, version: &str) -> (r: bool)
    requires
        is_req(notation@),
        semver_version(version@) is Ok,
    ensures
        r == req_accepts(notation@, version_in(version@)),
        notation@ == "*"@ ==> r == (version_in(version@).pre.len() == 0),
        forall|v: VersionView| #[trigger]
            is_version(v) && notation@ == pin_notation(v) ==> r == same_release(
                v,
                version_in(version@),
            ),
{
    let req = semver::VersionReq::parse(notation).unwrap();
    req.matches(&semver::Version::parse(version).unwrap())
}

impl Version {
    #[verifier::type_invariant]
    closed spec fn well_formed(self) -> bool {
        is_version(self.deep_view())
    }

    /// The version that `text` holds, or the reader's message.
    pub fn parse(text: &str) -> (r: Result<Version, String>)
        ensures
            match r {
                Ok(v) => semver_version(text@) == Ok::<VersionView, Seq<char>>(v.deep_view())
                    && text@ == version_text(v.deep_view()) && is_version(v.deep_view()),
                Err(message) => semver_version(text@) == Err::<VersionView, Seq<char>>(message@),
            },
    {
        match read_version(text) {
            Ok((major, minor, patch, pre, build)) => Ok(Version { major, minor, patch, pre, build }),
            Err(message) => Err(message),
        }
    }

    /// The same version again.
    pub fn copy(&self) -> (r: Version)
        ensures
            r.deep_view() == self.deep_view(),
            is_version(r.deep_view()),
    {
        proof {
            use_type_invariant(self);
        }
        Version {
            major: self.major,
            minor: self.minor,
            patch: self.patch,
            pre: self.pre.clone(),
            build: self.build.clone(),
        }
    }

    /// The version in writing.
    pub fn to_string(&self) -> (r: String)
        ensures
            r@ == version_text(self.deep_view()),
            is_version(self.deep_view()),
    {
        proof {
            use_type_invariant(self);
        }
        let mut out = decimal(self.major);
        out.append(".");
        out.append(decimal(self.minor).as_str());
        out.append(".");
        out.append(decimal(self.patch).as_str());
        if self.pre.unicode_len() > 0 {
            out.append("-");
            out.append(self.pre.as_str());
        }
        if self.build.unicode_len() > 0 {
            out.append("+");
            out.append(self.build.as_str());
        }
        out
    }

    /// Whether the version comes before `other` or ranks with it.
    pub fn at_most(&self, other: &Version) -> (r: bool)
        ensures
            r == version_leq(self.deep_view(), other.deep_view()),
            one_is_released(self.deep_view(), other.deep_view()) ==> r == (
            other.deep_view().pre.len() == 0),
    {
        let a = self.to_string();
        let b = other.to_string();
        version_at_most(a.as_str(), b.as_str())
    }
}

impl Clone for Version {
    fn clone(&self) -> (r: Version)
        ensures
            r.deep_view() == self.deep_view(),
    {
        self.copy()
    }
}

/// A requirement on a version: comparators that all have to hold, in the notation in
/// which they print.
#[derive(Debug, PartialEq, Eq)]
pub struct VersionReq {
    notation: String,
}

impl DeepView for VersionReq {
    type V = Seq<char>;

    closed spec fn deep_view(&self) -> Seq<char> {
        self.notation@
    }
}

impl VersionReq {
    #[verifier::type_invariant]
    closed spec fn well_formed(self) -> bool {
        is_req(self.notation@)
    }

    /// The requirement that `text` holds, or the reader's message.
    pub fn parse(text: &str) -> (r: Result<VersionReq, String>)
        ensures
            match r {
                Ok(req) => semver_req(text@) == Ok::<Seq<char>, Seq<char>>(req.deep_view())
                    && is_req(req.deep_view()),
                Err(message) => semver_req(text@) == Err::<Seq<char>, Seq<char>>(message@),
            },
            text@ == "*"@ ==> r is Ok && r->Ok_0.deep_view() == "*"@,
            forall|v: VersionView| #[trigger]
                is_version(v) && text@ == "="@ + version_text(v) ==> r is Ok
                    && r->Ok_0.deep_view() == pin_notation(v),
    {
        match read_req(text) {
            Ok(notation) => Ok(VersionReq { notation }),
            Err(message) => Err(message),
        }
    }

    /// The requirement that asks for nothing, `*`.
    pub fn star() -> (r: VersionReq)
        ensures
            r.deep_view() == "*"@,
            is_req(r.deep_view()),
    {
        match read_req("*") {
            Ok(notation) => VersionReq { notation },
            Err(_) => VersionReq { notation: String::new() },
        }
    }

    /// The requirement that pins the version in `text`.
    pub fn pin(version: &Version) -> (r: VersionReq)
        ensures
            r.deep_view() == pin_notation(version.deep_view()),
            is_req(r.deep_view()),
    {
        let text = joined("=", version.to_string().as_str());
        let ghost v = version.deep_view();
        match read_req(text.as_str()) {
            Ok(notation) => {
                assert(is_version(v));
                VersionReq { notation }
            },
            Err(_) => {
                assert(is_version(v));
                VersionReq { notation: String::new() }
            },
        }
    }

    /// The same requirement again.
    pub fn copy(&self) -> (r: VersionReq)
        ensures
            r.deep_view() == self.deep_view(),
            is_req(r.deep_view()),
    {
        proof {
            use_type_invariant(self);
        }
        VersionReq { notation: self.notation.clone() }
    }

    /// The requirement in its notation.
    pub fn to_string(&self) -> (r: String)
        ensures
            r@ == self.deep_view(),
    {
        self.notation.clone()
    }

    /// Whether the requirement accepts `version`. `*` accepts the versions without a
    /// pre-release, and a pinned version accepts itself, whatever the build.
    pub fn matches(&self, version: &Version) -> (r: bool)
        ensures
            r == req_accepts(self.deep_view(), version.deep_view()),
            self.deep_view() == "*"@ ==> r == (version.deep_view().pre.len() == 0),
            forall|v: VersionView| #[trigger]
                is_version(v) && self.deep_view() == pin_notation(v) ==> r == same_release(
                    v,
                    version.deep_view(),
                ),
    {
        proof {
            use_type_invariant(self);
        }
        let text = version.to_string();
        req_matches(self.notation.as_str(), text.as_str())
    }
}

impl Clone for VersionReq {
    fn clone(&self) -> (r: VersionReq)
        ensures
            r.deep_view() == self.deep_view(),
    {
        self.copy()
    }
}

} // verus!
