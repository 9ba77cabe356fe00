//! The pinned dependencies of a manifest, with names and versions that are safe to stand in
//! a path or a URL.

use crate::json::{Json, JsonView};
use crate::text::{
    byte_len, chars_of, contains, cut_at_last, holds, joined3, quote, quoted, rsplit_once, same,
    starts_with, trim_start, trimmed_start,
};
use vstd::prelude::*;
use vstd::string::*;
use vstd::utf8::encode_utf8;

verus! {

/// A dependency of a manifest.
#[derive(Debug, Clone, PartialEq, Eq)]
pub struct Dependency {
    pub name: String,
    /// The version, or what stands behind the `#` of a git source.
    pub version: String,
    /// Whether the source is git and not the registry.
    pub is_git: bool,
}

/// What a [`Dependency`] holds.
#[verifier::ext_equal]
pub struct DependencyView {
    pub name: Seq<char>,
    pub version: Seq<char>,
    pub is_git: bool,
}

impl DeepView for Dependency {
    type V = DependencyView;

    open spec fn deep_view(&self) -> DependencyView {
        DependencyView { name: self.name@, version: self.version@, is_git: self.is_git }
    }
}

/// Why the dependencies of a manifest are not taken.
#[derive(Debug, PartialEq, Eq)]
pub enum DependencyError {
    /// The manifest is no JSON; the message is the reader's.
    Json(String),
    /// The manifest has no `dependencies` object.
    NoSection,
    /// A package name is empty or longer than 200 bytes.
    NameLength(String),
    /// A package name holds `..`.
    NameDots(String),
    /// A package name holds a character that it must not.
    NameCharacters(String),
    /// A version is empty or longer than 100 bytes.
    VersionLength(String),
    /// A version holds `..`.
    VersionDots(String),
    /// A version holds a character that it must not.
    VersionCharacters(String),
}

/// What a [`DependencyError`] holds.
#[verifier::ext_equal]
pub enum DependencyErrorView {
    Json(Seq<char>),
    NoSection,
    NameLength(Seq<char>),
    NameDots(Seq<char>),
    NameCharacters(Seq<char>),
    VersionLength(Seq<char>),
    VersionDots(Seq<char>),
    VersionCharacters(Seq<char>),
}

impl DeepView for DependencyError {
    type V = DependencyErrorView;

    open spec fn deep_view(&self) -> DependencyErrorView {
        match *self {
            DependencyError::Json(s) => DependencyErrorView::Json(s@),
            DependencyError::NoSection => DependencyErrorView::NoSection,
            DependencyError::NameLength(s) => DependencyErrorView::NameLength(s@),
            DependencyError::NameDots(s) => DependencyErrorView::NameDots(s@),
            DependencyError::NameCharacters(s) => DependencyErrorView::NameCharacters(s@),
            DependencyError::VersionLength(s) => DependencyErrorView::VersionLength(s@),
            DependencyError::VersionDots(s) => DependencyErrorView::VersionDots(s@),
            DependencyError::VersionCharacters(s) => DependencyErrorView::VersionCharacters(s@),
        }
    }
}

/// What is said of dependencies that are not taken.
pub open spec fn dependency_error_text(e: DependencyErrorView) -> Seq<char> {
    match e {
        DependencyErrorView::Json(message) => message,
        DependencyErrorView::NoSection => "no dependencies section found in package.json"@,
        DependencyErrorView::NameLength(s) => "package name "@ + quoted(s) + " has invalid length"@,
        DependencyErrorView::NameDots(s) => "package name "@ + quoted(s) + " contains '..'"@,
        DependencyErrorView::NameCharacters(s) => "package name "@ + quoted(s)
            + " contains disallowed characters"@,
        DependencyErrorView::VersionLength(s) => "version "@ + quoted(s) + " has invalid length"@,
        DependencyErrorView::VersionDots(s) => "version "@ + quoted(s) + " contains '..'"@,
        DependencyErrorView::VersionCharacters(s) => "version "@ + quoted(s)
            + " contains disallowed characters"@,
    }
}

impl DependencyError {
    /// What is said of the error.
    pub fn message(&self) -> (r: String)
        ensures
            r@ == dependency_error_text(self.deep_view()),
    {
        match self {
            DependencyError::Json(message) => message.clone(),
            DependencyError::NoSection => "no dependencies section found in package.json".to_owned(),
            DependencyError::NameLength(s) => joined3(
                "package name ",
                quote(s.as_str()).as_str(),
                " has invalid length",
            ),
            DependencyError::NameDots(s) => joined3(
                "package name ",
                quote(s.as_str()).as_str(),
                " contains '..'",
            ),
            DependencyError::NameCharacters(s) => joined3(
                "package name ",
                quote(s.as_str()).as_str(),
                " contains disallowed characters",
            ),
            DependencyError::VersionLength(s) => joined3(
                "version ",
                quote(s.as_str()).as_str(),
                " has invalid length",
            ),
            DependencyError::VersionDots(s) => joined3(
                "version ",
                quote(s.as_str()).as_str(),
                " contains '..'",
            ),
            DependencyError::VersionCharacters(s) => joined3(
                "version ",
                quote(s.as_str()).as_str(),
                " contains disallowed characters",
            ),
        }
    }
}

/// An ASCII letter or digit.
pub open spec fn is_word_char(c: char) -> bool {
    'a' <= c <= 'z' || 'A' <= c <= 'Z' || '0' <= c <= '9'
}

/// The characters of package names.
pub open spec fn name_char(c: char) -> bool {
    is_word_char(c) || c == '.' || c == '-' || c == '_' || c == '@' || c == '/'
}

/// The characters of versions, none of which separates the parts of a path.
pub open spec fn pin_char(c: char) -> bool {
    is_word_char(c) || c == '.' || c == '-' || c == '+' || c == '_'
}

/// What is wrong with a package name.
pub open spec fn name_problem(name: Seq<char>) -> Option<DependencyErrorView> {
    if name.len() == 0 || encode_utf8(name).len() > 200 {
        Some(DependencyErrorView::NameLength(name))
    } else if contains(name, ".."@) {
        Some(DependencyErrorView::NameDots(name))
    } else if exists|i: int| 0 <= i < name.len() && !name_char(#[trigger] name[i]) {
        Some(DependencyErrorView::NameCharacters(name))
    } else {
        None
    }
}

/// What is wrong with a version.
pub open spec fn version_problem(version: Seq<char>) -> Option<DependencyErrorView> {
    if version.len() == 0 || encode_utf8(version).len() > 100 {
        Some(DependencyErrorView::VersionLength(version))
    } else if contains(version, ".."@) {
        Some(DependencyErrorView::VersionDots(version))
    } else if exists|i: int| 0 <= i < version.len() && !pin_char(#[trigger] version[i]) {
        Some(DependencyErrorView::VersionCharacters(version))
    } else {
        None
    }
}

/// Whether a specifier names a git source.
pub open spec fn is_git_source(value: Seq<char>) -> bool {
    contains(value, "github.com"@) || "git"@.is_prefix_of(value)
}

/// The bare version of a specifier: what stands behind the last `#` of a git source, else
/// the specifier without its carets and then tildes.
pub open spec fn bare_version(value: Seq<char>) -> Seq<char> {
    if is_git_source(value) && cut_at_last(value, "#"@) is Some {
        cut_at_last(value, "#"@)->Some_0.1
    } else {
        trimmed_start(trimmed_start(value, '^'), '~')
    }
}

/// The dependency that a member of `dependencies` is, or what is wrong with it.
pub open spec fn dependency_of(name: Seq<char>, value: Seq<char>) -> Result<
    DependencyView,
    DependencyErrorView,
> {
    match name_problem(name) {
        Some(e) => Err(e),
        None => match version_problem(bare_version(value)) {
            Some(e) => Err(e),
            None => Ok(
                DependencyView { name, version: bare_version(value), is_git: is_git_source(value) },
            ),
        },
    }
}

/// The dependencies of the members whose value is a text, or what is wrong with the first of
/// them that is not taken.
pub open spec fn dependencies_of_members(
    members: Seq<(Seq<char>, JsonView)>,
) -> Result<Seq<DependencyView>, DependencyErrorView>
    decreases members.len(),
{
    if members.len() == 0 {
        Ok(Seq::empty())
    } else {
        match dependencies_of_members(members.drop_last()) {
            Ok(before) => match members.last().1 {
                JsonView::Str(value) => match dependency_of(members.last().0, value) {
                    Ok(d) => Ok(before.push(d)),
                    Err(e) => Err(e),
                },
                _ => Ok(before),
            },
            Err(e) => Err(e),
        }
    }
}

/// The dependencies of a manifest.
pub open spec fn dependencies_of_document(doc: JsonView) -> Result<
    Seq<DependencyView>,
    DependencyErrorView,
> {
    match doc.members("dependencies"@) {
        Some(members) => dependencies_of_members(members),
        None => Err(DependencyErrorView::NoSection),
    }
}

/// The dependency called `name`, the last of several.
pub open spec fn dependency_named(list: Seq<DependencyView>, name: Seq<char>) -> Option<
    DependencyView,
>
    decreases list.len(),
{
    if list.len() == 0 {
        None
    } else if list.last().name == name {
        Some(list.last())
    } else {
        dependency_named(list.drop_last(), name)
    }
}

/// The dependencies of a manifest, in its order.
#[derive(Debug)]
pub struct Dependencies {
    list: Vec<Dependency>,
}

impl DeepView for Dependencies {
    type V = Seq<DependencyView>;

    closed spec fn deep_view(&self) -> Seq<DependencyView> {
        self.list.deep_view()
    }
}

impl Dependencies {
    /// How many there are.
    pub fn len(&self) -> (r: usize)
        ensures
            r == self.deep_view().len(),
    {
        self.list.len()
    }

    /// The dependency at the place `i`, where there is one.
    pub fn at(&self, i: usize) -> (r: Option<&Dependency>)
        ensures
            r.deep_view() == (if i < self.deep_view().len() {
                Some(self.deep_view()[i as int])
            } else {
                None
            }),
    {
        if i < self.list.len() {
            Some(&self.list[i])
        } else {
            None
        }
    }

    /// The dependency called `name`.
    pub fn get(&self, name: &str) -> (r: Option<&Dependency>)
        ensures
            r.deep_view() == dependency_named(self.deep_view(), name@),
    {
        let ghost all = self.list.deep_view();
        let mut i: usize = self.list.len();
        assert(all.take(i as int) =~= all);
        while i > 0
            invariant
                i <= self.list.len(),
                all == self.list.deep_view(),
                dependency_named(all, name@) == dependency_named(all.take(i as int), name@),
            decreases i,
        {
            assert(all.take(i as int).drop_last() =~= all.take(i - 1));
            i -= 1;
            if same(self.list[i].name.as_str(), name) {
                return Some(&self.list[i]);
            }
        }
        None
    }
}

/// Reads the `dependencies` of a `package.json`. The first entry whose name or version is
/// not safe is an error.
pub fn parse_dependencies(content: &str) -> (r: Result<Dependencies, DependencyError>)
    ensures
        match crate::json::json_reading(content@) {
            Ok(doc) => match r {
                Ok(deps) => dependencies_of_document(doc) == Ok::<
                    Seq<DependencyView>,
                    DependencyErrorView,
                >(deps.deep_view()),
                Err(e) => dependencies_of_document(doc) == Err::<
                    Seq<DependencyView>,
                    DependencyErrorView,
                >(e.deep_view()),
            },
            Err(message) => r matches Err(e) && e.deep_view() == DependencyErrorView::Json(message),
        },
{
    match Json::parse(content) {
        Ok(doc) => dependencies_in(&doc),
        Err(message) => Err(DependencyError::Json(message)),
    }
}

/// The dependencies of a manifest.
pub fn dependencies_in(doc: &Json) -> (r: Result<Dependencies, DependencyError>)
    ensures
        match r {
            Ok(deps) => dependencies_of_document(doc.deep_view()) == Ok::<
                Seq<DependencyView>,
                DependencyErrorView,
            >(deps.deep_view()),
            Err(e) => dependencies_of_document(doc.deep_view()) == Err::<
                Seq<DependencyView>,
                DependencyErrorView,
            >(e.deep_view()),
        },
{
    match doc.members("dependencies") {
        Some(members) => {
            let ghost all = members.deep_view();
            let mut list: Vec<Dependency> = Vec::new();
            let mut i: usize = 0;
            assert(list.deep_view() =~= Seq::<DependencyView>::empty());
            while i < members.len()
                invariant
                    i <= members.len(),
                    all == members.deep_view(),
                    dependencies_of_document(doc.deep_view()) == dependencies_of_members(all),
                    dependencies_of_members(all.take(i as int)) == Ok::<
                        Seq<DependencyView>,
                        DependencyErrorView,
                    >(list.deep_view()),
                decreases members.len() - i,
            {
                let ghost done = list.deep_view();
                let name = &members[i].0;
                proof {
                    assert(all.take(i + 1).drop_last() =~= all.take(i as int));
                    assert(all[i as int] == (
                        members@[i as int].0@,
                        members@[i as int].1.deep_view(),
                    ));
                }
                if let Some(value) = members[i].1.as_str() {
                    match dependency(name.as_str(), value) {
                        Ok(d) => {
                            let ghost v = d.deep_view();
                            list.push(d);
                            assert(list.deep_view() =~= done.push(v));
                        },
                        Err(e) => {
                            proof {
                                lemma_dependencies_fail(all, i + 1);
                            }
                            return Err(e);
                        },
                    }
                }
                i += 1;
            }
            assert(all.take(all.len() as int) =~= all);
            Ok(Dependencies { list })
        },
        None => Err(DependencyError::NoSection),
    }
}

/// An error among the first members is the error of all.
proof fn lemma_dependencies_fail(members: Seq<(Seq<char>, JsonView)>, n: int)
    requires
        0 <= n <= members.len(),
        dependencies_of_members(members.take(n)) is Err,
    ensures
        dependencies_of_members(members) == dependencies_of_members(members.take(n)),
    decreases members.len() - n,
{
    if n < members.len() {
        assert(members.take(n + 1).drop_last() =~= members.take(n));
        lemma_dependencies_fail(members, n + 1);
    } else {
        assert(members.take(n) =~= members);
    }
}

/// The dependency that a member of `dependencies` is.
fn dependency(name: &str, value: &str) -> (r: Result<Dependency, DependencyError>)
    ensures
        match r {
            Ok(d) => dependency_of(name@, value@) == Ok::<DependencyView, DependencyErrorView>(
                d.deep_view(),
            ),
            Err(e) => dependency_of(name@, value@) == Err::<DependencyView, DependencyErrorView>(
                e.deep_view(),
            ),
        },
{
    let is_git = holds(value, "github.com") || starts_with(value, "git");
    let version = extract_version(value);
    match validate_package_name(name) {
        Err(e) => Err(e),
        Ok(_) => match validate_version(version.as_str()) {
            Err(e) => Err(e),
            Ok(_) => Ok(Dependency { name: name.to_owned(), version, is_git }),
        },
    }
}

/// Refuses a package name that could lead out of a path or a URL.
pub fn validate_package_name(name: &str) -> (r: Result<(), DependencyError>)
    ensures
        match r {
            Ok(_) => name_problem(name@) is None,
            Err(e) => name_problem(name@) == Some(e.deep_view()),
        },
{
    if name.unicode_len() == 0 || byte_len(name) > 200 {
        return Err(DependencyError::NameLength(name.to_owned()));
    }
    if holds(name, "..") {
        return Err(DependencyError::NameDots(name.to_owned()));
    }
    let chars = chars_of(name);
    let mut i: usize = 0;
    while i < chars.len()
        invariant
            i <= chars.len(),
            chars@ == name@,
            name@.len() > 0,
            encode_utf8(name@).len() <= 200,
            !contains(name@, ".."@),
            forall|j: int| 0 <= j < i ==> name_char(#[trigger] name@[j]),
        decreases chars.len() - i,
    {
        let c = chars[i];
        if !(('a' <= c && c <= 'z') || ('A' <= c && c <= 'Z') || ('0' <= c && c <= '9') || c == '.'
            || c == '-' || c == '_' || c == '@' || c == '/') {
            assert(!name_char(name@[i as int]));
            return Err(DependencyError::NameCharacters(name.to_owned()));
        }
        i += 1;
    }
    Ok(())
}

/// Refuses a version that could lead out of a URL, a file name or a marker.
pub fn validate_version(version: &str) -> (r: Result<(), DependencyError>)
    ensures
        match r {
            Ok(_) => version_problem(version@) is None,
            Err(e) => version_problem(version@) == Some(e.deep_view()),
        },
{
    if version.unicode_len() == 0 || byte_len(version) > 100 {
        return Err(DependencyError::VersionLength(version.to_owned()));
    }
    if holds(version, "..") {
        return Err(DependencyError::VersionDots(version.to_owned()));
    }
    let chars = chars_of(version);
    let mut i: usize = 0;
    while i < chars.len()
        invariant
            i <= chars.len(),
            chars@ == version@,
            version@.len() > 0,
            encode_utf8(version@).len() <= 100,
            !contains(version@, ".."@),
            forall|j: int| 0 <= j < i ==> pin_char(#[trigger] version@[j]),
        decreases chars.len() - i,
    {
        let c = chars[i];
        if !(('a' <= c && c <= 'z') || ('A' <= c && c <= 'Z') || ('0' <= c && c <= '9') || c == '.'
            || c == '-' || c == '+' || c == '_') {
            assert(!pin_char(version@[i as int]));
            return Err(DependencyError::VersionCharacters(version.to_owned()));
        }
        i += 1;
    }
    Ok(())
}

/// The bare version of a specifier.
pub fn extract_version(value: &str) -> (r: String)
    ensures
        r@ == bare_version(value@),
{
    if holds(value, "github.com") || starts_with(value, "git") {
        if let Some((_, reference)) = rsplit_once(value, "#") {
            return reference;
        }
    }
    trim_start(trim_start(value, '^').as_str(), '~')
}

/// What is taken of a manifest is safe: the names and versions hold no `..` and only the
/// characters that names and versions may hold, so that no version holds a path separator.
pub proof fn taken_dependencies_are_safe(members: Seq<(Seq<char>, JsonView)>, i: int)
    requires
        dependencies_of_members(members) is Ok,
        0 <= i < dependencies_of_members(members)->Ok_0.len(),
    ensures
        ({
            let d = dependencies_of_members(members)->Ok_0[i];
            &&& d.name.len() > 0 && d.version.len() > 0
            &&& !contains(d.name, ".."@) && !contains(d.version, ".."@)
            &&& forall|k: int| 0 <= k < d.name.len() ==> name_char(#[trigger] d.name[k])
            &&& forall|k: int| 0 <= k < d.version.len() ==> pin_char(#[trigger] d.version[k])
        }),
    decreases members.len(),
{
    let all = dependencies_of_members(members)->Ok_0;
    let before = dependencies_of_members(members.drop_last())->Ok_0;
    if i < before.len() {
        taken_dependencies_are_safe(members.drop_last(), i);
    }
}

} // verus!
