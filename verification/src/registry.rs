//! The npm registry: where packages are, which version of one is taken, and the flat tree of
//! all that a set of roots needs.

use crate::json::{
    distinct_keys, json_reading_of_bytes, text_members, text_members_of, Json, JsonView,
};
use crate::package_json::spec::{range_accepts, range_error_text, Range, RangeError, RangeErrorView};
use crate::package_json::{license_in, normalize_license};
use crate::sort::Sortable;
use crate::text::{
    after_last, at_most, cut_at_first, join, joined, joined3, last_piece, quote, quoted, split_once,
    strip_prefix, stripped, text_leq,
};
use crate::version::{
    is_version, semver_version, version_leq, version_text, Version, VersionView,
};
use vstd::prelude::*;
use vstd::string::*;

pub use crate::package_json::spec::version_req;

verus! {

/// An npm-compatible registry.
#[derive(Debug)]
pub struct Registry {
    pub base_url: String,
}

/// How much of a metadata document is asked for.
#[derive(Debug, Clone, Copy, PartialEq, Eq, Structural)]
pub enum PackumentDetail {
    /// All of it, with the licenses.
    Full,
    /// What an install needs, without the licenses.
    Abbreviated,
}

impl PackumentDetail {
    /// The media type to ask for, where it is not the usual one.
    pub fn accept(&self) -> (r: Option<String>)
        ensures
            r.deep_view() == (match *self {
                PackumentDetail::Full => None::<Seq<char>>,
                PackumentDetail::Abbreviated => Some("application/vnd.npm.install-v1+json"@),
            }),
    {
        match self {
            PackumentDetail::Full => None,
            PackumentDetail::Abbreviated => Some(
                "application/vnd.npm.install-v1+json".to_owned(),
            ),
        }
    }
}

impl Default for Registry {
    fn default() -> (r: Registry)
        ensures
            r.base_url@ == "https://registry.npmjs.org"@,
    {
        Registry { base_url: "https://registry.npmjs.org".to_owned() }
    }
}

/// A version of a package that was taken: which one, its tarball, and what the registry says
/// of its integrity and license.
#[derive(Debug, Clone)]
#[non_exhaustive]
pub struct Resolved {
    pub name: String,
    pub version: Version,
    pub tarball_url: String,
    /// The `dist.integrity` of the registry; nothing where the registry names no tarball.
    pub integrity: Option<String>,
    /// The declared license.
    pub license: Option<String>,
}

/// What a [`Resolved`] holds.
#[verifier::ext_equal]
pub struct ResolvedView {
    pub name: Seq<char>,
    pub version: VersionView,
    pub tarball_url: Seq<char>,
    pub integrity: Option<Seq<char>>,
    pub license: Option<Seq<char>>,
}

impl DeepView for Resolved {
    type V = ResolvedView;

    open spec fn deep_view(&self) -> ResolvedView {
        ResolvedView {
            name: self.name@,
            version: self.version.deep_view(),
            tarball_url: self.tarball_url@,
            integrity: self.integrity.deep_view(),
            license: self.license.deep_view(),
        }
    }
}

impl Sortable for Resolved {
    open spec fn leq(a: ResolvedView, b: ResolvedView) -> bool {
        text_leq(a.name, b.name)
    }

    proof fn leq_total(a: ResolvedView, b: ResolvedView) {
        crate::text::lemma_text_total(a.name, b.name);
    }

    proof fn leq_transitive(a: ResolvedView, b: ResolvedView, c: ResolvedView) {
        crate::text::lemma_text_transitive(a.name, b.name, c.name);
    }

    fn may_precede(&self, other: &Resolved) -> (r: bool) {
        at_most(self.name.as_str(), other.name.as_str())
    }
}

/// The conventional URL of a tarball: `<base>/<name>/-/<name without scope>-<version>.tgz`.
pub open spec fn tarball_at(base: Seq<char>, name: Seq<char>, version: Seq<char>) -> Seq<char> {
    base + "/"@ + name + "/-/"@ + last_piece(name, "/"@) + "-"@ + version + ".tgz"@
}

/// The URL of the metadata document of a package; the slash of a scope is written `%2f`.
pub open spec fn packument_at(base: Seq<char>, name: Seq<char>) -> Seq<char> {
    let encoded = match stripped(name, "@"@) {
        Some(rest) => "@"@ + (match cut_at_first(rest, "/"@) {
            Some((scope, package)) => scope + "%2f"@ + package,
            None => rest,
        }),
        None => name,
    };
    base + "/"@ + encoded
}

/// What is taken of a version: the version, and its tarball, integrity and license.
pub type SelectedView = (VersionView, Option<Seq<char>>, Option<Seq<char>>, Option<Seq<char>>);

/// The version of a package that was taken, with its tarball, integrity and license.
pub type SelectedVersion = (Version, Option<String>, Option<String>, Option<String>);

/// The text of the member `key` of the `dist` of a version.
pub open spec fn dist_text(meta: JsonView, key: Seq<char>) -> Option<Seq<char>> {
    match meta.get("dist"@) {
        Some(dist) => dist.text(key),
        None => None,
    }
}

/// What a member of `versions` offers to a range: nothing where its key is no version or one
/// that the range does not accept.
pub open spec fn offered(
    member: (Seq<char>, JsonView),
    range: Seq<Seq<char>>,
) -> Option<SelectedView> {
    match semver_version(member.0) {
        Ok(v) => if range_accepts(range, v) {
            Some(
                (
                    v,
                    dist_text(member.1, "tarball"@),
                    dist_text(member.1, "integrity"@),
                    license_in(member.1),
                ),
            )
        } else {
            None
        },
        Err(_) => None,
    }
}

/// The newest that the members of `versions` offer to a range, the first of several that rank
/// the same.
pub open spec fn newest(members: Seq<(Seq<char>, JsonView)>, range: Seq<Seq<char>>) -> Option<
    SelectedView,
>
    decreases members.len(),
{
    if members.len() == 0 {
        None
    } else {
        let before = newest(members.drop_last(), range);
        match offered(members.last(), range) {
            Some(s) => match before {
                Some(b) => if version_leq(s.0, b.0) {
                    before
                } else {
                    Some(s)
                },
                None => Some(s),
            },
            None => before,
        }
    }
}

/// The newest version of a metadata document that a range accepts.
pub open spec fn selected_version(doc: JsonView, range: Seq<Seq<char>>) -> Option<SelectedView> {
    match doc.members("versions"@) {
        Some(members) => newest(members, range),
        None => None,
    }
}

/// The dependencies of a version, with their specifiers.
pub open spec fn published_dependencies(
    doc: JsonView,
    version: VersionView,
) -> Seq<(Seq<char>, Seq<char>)> {
    match doc.get("versions"@) {
        Some(versions) => match versions.get(version_text(version)) {
            Some(meta) => match meta.members("dependencies"@) {
                Some(members) => text_members_of(members),
                None => Seq::empty(),
            },
            None => Seq::empty(),
        },
        None => Seq::empty(),
    }
}

/// Whatever version a range accepts, none of them is newer than the one that is taken.
pub proof fn selection_is_newest(
    members: Seq<(Seq<char>, JsonView)>,
    range: Seq<Seq<char>>,
    i: int,
)
    requires
        0 <= i < members.len(),
        offered(members[i], range) is Some,
    ensures
        newest(members, range) is Some,
        version_leq(offered(members[i], range)->Some_0.0, newest(members, range)->Some_0.0),
    decreases members.len(),
{
    let last = members.last();
    let before = newest(members.drop_last(), range);
    if i < members.len() - 1 {
        selection_is_newest(members.drop_last(), range, i);
        if let Some(s) = offered(last, range) {
            let b = before->Some_0;
            crate::version::versions_are_ordered(s.0, b.0);
            if !version_leq(s.0, b.0) {
                crate::version::version_order_is_transitive(
                    offered(members[i], range)->Some_0.0,
                    b.0,
                    s.0,
                );
            }
        }
    } else {
        let s = offered(last, range)->Some_0;
        crate::version::versions_are_ordered(s.0, s.0);
    }
}

/// The version that is taken is one of those that are offered, and the range accepts it.
pub proof fn selection_is_offered(
    members: Seq<(Seq<char>, JsonView)>,
    range: Seq<Seq<char>>,
) -> (i: int)
    requires
        newest(members, range) is Some,
    ensures
        0 <= i < members.len(),
        offered(members[i], range) == newest(members, range),
        range_accepts(range, newest(members, range)->Some_0.0),
    decreases members.len(),
{
    if newest(members, range) == offered(members.last(), range) {
        members.len() - 1
    } else {
        selection_is_offered(members.drop_last(), range)
    }
}

/// Where nothing is taken, nothing was offered.
pub proof fn nothing_selected_means_nothing_offered(
    members: Seq<(Seq<char>, JsonView)>,
    range: Seq<Seq<char>>,
    i: int,
)
    requires
        newest(members, range) is None,
        0 <= i < members.len(),
    ensures
        offered(members[i], range) is None,
{
    if offered(members[i], range) is Some {
        selection_is_newest(members, range, i);
    }
}

/// The text of the member `key` of the `dist` of a version.
fn dist_field(meta: &Json, key: &str) -> (r: Option<String>)
    ensures
        r.deep_view() == dist_text(meta.deep_view(), key@),
{
    match meta.get("dist") {
        Some(dist) => match dist.text(key) {
            Some(s) => Some(s.to_owned()),
            None => None,
        },
        None => None,
    }
}

/// The newest version of a metadata document that a range accepts, with the tarball, the
/// integrity and the license that the registry gives for it.
pub fn select_version(doc: &Json, range: &Range) -> (r: Option<SelectedVersion>)
    ensures
        r.deep_view() == selected_version(doc.deep_view(), range.deep_view()),
        r is Some ==> is_version(r.deep_view()->Some_0.0),
{
    match doc.members("versions") {
        Some(members) => {
            let ghost all = members.deep_view();
            let mut best: Option<SelectedVersion> = None;
            let mut i: usize = 0;
            while i < members.len()
                invariant
                    i <= members.len(),
                    all == members.deep_view(),
                    best.deep_view() == newest(all.take(i as int), range.deep_view()),
                    best is Some ==> is_version(best.deep_view()->Some_0.0),
                decreases members.len() - i,
            {
                proof {
                    assert(all.take(i + 1).drop_last() =~= all.take(i as int));
                    assert(all[i as int] == (
                        members@[i as int].0@,
                        members@[i as int].1.deep_view(),
                    ));
                }
                if let Ok(version) = Version::parse(members[i].0.as_str()) {
                    if range.matches(&version) {
                        let newer = match &best {
                            Some(b) => !version.at_most(&b.0),
                            None => true,
                        };
                        if newer {
                            let meta = &members[i].1;
                            best = Some(
                                (
                                    version,
                                    dist_field(meta, "tarball"),
                                    dist_field(meta, "integrity"),
                                    license_of(meta),
                                ),
                            );
                        }
                    }
                }
                i += 1;
            }
            assert(all.take(all.len() as int) =~= all);
            best
        },
        None => None,
    }
}

/// The license that an entry of a metadata document declares.
pub fn license_of(meta: &Json) -> (r: Option<String>)
    ensures
        r.deep_view() == license_in(meta.deep_view()),
{
    normalize_license(meta)
}

/// The dependencies of a version, with their specifiers.
pub fn dependencies_of(doc: &Json, version: &Version) -> (r: Vec<(String, String)>)
    ensures
        r.deep_view() == published_dependencies(doc.deep_view(), version.deep_view()),
{
    let key = version.to_string();
    if let Some(versions) = doc.get("versions") {
        if let Some(meta) = versions.get(key.as_str()) {
            if let Some(members) = meta.members("dependencies") {
                return text_members(members);
            }
        }
    }
    let none: Vec<(String, String)> = Vec::new();
    assert(none.deep_view() =~= Seq::<(Seq<char>, Seq<char>)>::empty());
    none
}

/// Why a package or a tree is not resolved.
#[derive(Debug)]
pub enum ResolveError {
    /// The range accepts no published version.
    NoMatch { name: String, range: Range },
    /// There is no metadata document of the package.
    NoPackument { name: String },
    /// The version that was taken first does not satisfy a later range.
    Conflict { name: String, version: Version, range: Range },
    /// A dependency of the package has a specifier that is no range.
    Unsupported {
        name: String,
        version: Version,
        dependency: String,
        spec: String,
        error: RangeError,
    },
}

/// What a [`ResolveError`] holds.
#[verifier::ext_equal]
pub enum ResolveErrorView {
    NoMatch { name: Seq<char>, range: Seq<Seq<char>> },
    NoPackument { name: Seq<char> },
    Conflict { name: Seq<char>, version: VersionView, range: Seq<Seq<char>> },
    Unsupported {
        name: Seq<char>,
        version: VersionView,
        dependency: Seq<char>,
        spec: Seq<char>,
        error: RangeErrorView,
    },
}

impl DeepView for ResolveError {
    type V = ResolveErrorView;

    open spec fn deep_view(&self) -> ResolveErrorView {
        match *self {
            ResolveError::NoMatch { name, range } => ResolveErrorView::NoMatch {
                name: name@,
                range: range.deep_view(),
            },
            ResolveError::NoPackument { name } => ResolveErrorView::NoPackument { name: name@ },
            ResolveError::Conflict { name, version, range } => ResolveErrorView::Conflict {
                name: name@,
                version: version.deep_view(),
                range: range.deep_view(),
            },
            ResolveError::Unsupported { name, version, dependency, spec, error } =>
            ResolveErrorView::Unsupported {
                name: name@,
                version: version.deep_view(),
                dependency: dependency@,
                spec: spec@,
                error: error.deep_view(),
            },
        }
    }
}

/// A range in writing.
pub open spec fn range_text(range: Seq<Seq<char>>) -> Seq<char> {
    join(range, " || "@)
}

/// What is said of a package or a tree that is not resolved.
pub open spec fn resolve_error_text(e: ResolveErrorView) -> Seq<char> {
    match e {
        ResolveErrorView::NoMatch { name, range } => "no published version of "@ + name
            + " matches "@ + range_text(range),
        ResolveErrorView::NoPackument { name } => "no packument for "@ + name,
        ResolveErrorView::Conflict { name, version, range } => "version conflict for `"@ + name
            + "`: resolved "@ + version_text(version) + " but also required `"@ + range_text(range)
            + "` (flat node_modules install resolves one version per package)"@,
        ResolveErrorView::Unsupported { name, version, dependency, spec, error } => name + "@"@
            + version_text(version) + " dependency `"@ + dependency + "`: unsupported version "@
            + quoted(spec) + ": "@ + range_error_text(error),
    }
}

impl ResolveError {
    /// What is said of the error.
    pub fn message(&self) -> (r: String)
        ensures
            r@ == resolve_error_text(self.deep_view()),
    {
        match self {
            ResolveError::NoMatch { name, range } => {
                let mut out = joined3("no published version of ", name.as_str(), " matches ");
                out.append(range.to_string().as_str());
                out
            },
            ResolveError::NoPackument { name } => joined("no packument for ", name.as_str()),
            ResolveError::Conflict { name, version, range } => {
                let mut out = joined3("version conflict for `", name.as_str(), "`: resolved ");
                out.append(version.to_string().as_str());
                out.append(" but also required `");
                out.append(range.to_string().as_str());
                out.append("` (flat node_modules install resolves one version per package)");
                out
            },
            ResolveError::Unsupported { name, version, dependency, spec, error } => {
                let mut out = joined3(name.as_str(), "@", version.to_string().as_str());
                out.append(" dependency `");
                out.append(dependency.as_str());
                out.append("`: unsupported version ");
                out.append(quote(spec.as_str()).as_str());
                out.append(": ");
                out.append(error.message().as_str());
                out
            },
        }
    }
}

/// A version of a package that was taken; where the registry names no tarball, it is at the
/// conventional URL, and no integrity is known of what is there.
pub open spec fn resolved_of(base: Seq<char>, name: Seq<char>, s: SelectedView) -> ResolvedView {
    ResolvedView {
        name,
        version: s.0,
        tarball_url: match s.1 {
            Some(url) => url,
            None => tarball_at(base, name, version_text(s.0)),
        },
        integrity: if s.1 is Some {
            s.2
        } else {
            None
        },
        license: s.3,
    }
}

impl Registry {
    /// The public npm registry.
    pub fn npm() -> (r: Registry)
        ensures
            r.base_url@ == "https://registry.npmjs.org"@,
    {
        Registry { base_url: "https://registry.npmjs.org".to_owned() }
    }

    /// A registry at another base URL.
    pub fn with_base_url(base_url: &str) -> (r: Registry)
        ensures
            r.base_url@ == base_url@,
    {
        Registry { base_url: base_url.to_owned() }
    }

    /// The conventional URL of the tarball of a version.
    pub fn tarball_url(&self, name: &str, version: &str) -> (r: String)
        ensures
            r@ == tarball_at(self.base_url@, name@, version@),
    {
        let mut out = joined3(self.base_url.as_str(), "/", name);
        out.append("/-/");
        out.append(after_last(name, "/").as_str());
        out.append("-");
        out.append(version);
        out.append(".tgz");
        out
    }

    /// The URL of the metadata document of a package.
    pub fn packument_url(&self, name: &str) -> (r: String)
        ensures
            r@ == packument_at(self.base_url@, name@),
    {
        let encoded = match strip_prefix(name, "@") {
            Some(rest) => {
                let path = match split_once(rest.as_str(), "/") {
                    Some((scope, package)) => joined3(scope.as_str(), "%2f", package.as_str()),
                    None => rest,
                };
                joined("@", path.as_str())
            },
            None => name.to_owned(),
        };
        joined3(self.base_url.as_str(), "/", encoded.as_str())
    }

    /// The metadata document in the body of an answer, or the reader's message.
    pub fn packument(&self, body: &[u8]) -> (r: Result<Json, String>)
        ensures
            match r {
                Ok(doc) => json_reading_of_bytes(body@) == Ok::<JsonView, Seq<char>>(
                    doc.deep_view(),
                ) && distinct_keys(doc.deep_view()),
                Err(message) => json_reading_of_bytes(body@) == Err::<JsonView, Seq<char>>(
                    message@,
                ),
            },
    {
        Json::parse_bytes(body)
    }

    /// The newest published version of `name` that the range accepts, by the metadata
    /// document of the package.
    pub fn resolve(&self, name: &str, range: &Range, doc: &Json) -> (r: Result<
        Resolved,
        ResolveError,
    >)
        ensures
            match selected_version(doc.deep_view(), range.deep_view()) {
                Some(s) => r matches Ok(resolved) && resolved.deep_view() == resolved_of(
                    self.base_url@,
                    name@,
                    s,
                ),
                None => r matches Err(e) && e.deep_view() == (ResolveErrorView::NoMatch {
                    name: name@,
                    range: range.deep_view(),
                }),
            },
    {
        match select_version(doc, range) {
            Some((version, tarball, integrity, license)) => {
                let (tarball_url, integrity) = match tarball {
                    Some(url) => (url, integrity),
                    None => (self.tarball_url(name, version.to_string().as_str()), None),
                };
                Ok(Resolved { name: name.to_owned(), version, tarball_url, integrity, license })
            },
            None => Err(ResolveError::NoMatch { name: name.to_owned(), range: range.copy() }),
        }
    }
}

} // verus!
