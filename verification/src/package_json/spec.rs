//! The dependency specifiers of npm: the values of a `dependencies` map.
//!
//! A value is a registry version, range or tag, an `npm:` alias, a git source, a remote
//! tarball or a local path. [`Spec::parse`] tells these apart by their form and never
//! fails; [`version_req`] and [`Range::parse`] read the registry ones.

use crate::text::{
    contains, copy_opt, cut_at_first, find, holds, join, join_texts, joined, quote, quoted, rfind,
    rsplit_once, same, split_on, split_once, split_text, starts_with, strip_prefix, trim, trimmed,
    words, words_of,
};
use crate::version::{
    is_version, pin_notation, req_accepts, same_release, semver_req, semver_version, version_text,
    Version, VersionReq, VersionView,
};
use vstd::prelude::*;
use vstd::string::*;

verus! {

/// A classified dependency specifier.
#[derive(Debug, PartialEq, Eq)]
pub enum Spec {
    /// An exact version, a range or a tag of the registry, as it was written.
    Registry(String),
    /// `npm:<name>@<spec>`: the package `name`, by the inner specifier, under another key.
    Alias { name: String, spec: Box<Spec> },
    /// A git source, with the `#<committish>` where there is one.
    Git { source: String, committish: Option<String> },
    /// A tarball over http or https.
    Tarball(String),
    /// A local path.
    Path(String),
}

/// What a [`Spec`] holds.
#[verifier::ext_equal]
pub enum SpecView {
    Registry(Seq<char>),
    Alias { name: Seq<char>, spec: Box<SpecView> },
    Git { source: Seq<char>, committish: Option<Seq<char>> },
    Tarball(Seq<char>),
    Path(Seq<char>),
}

/// What the specifier `spec` holds.
pub open spec fn spec_view(spec: Spec) -> SpecView
    decreases spec,
{
    match spec {
        Spec::Registry(s) => SpecView::Registry(s@),
        Spec::Alias { name, spec } => SpecView::Alias {
            name: name@,
            spec: Box::new(spec_view(*spec)),
        },
        Spec::Git { source, committish } => SpecView::Git {
            source: source@,
            committish: committish.deep_view(),
        },
        Spec::Tarball(s) => SpecView::Tarball(s@),
        Spec::Path(s) => SpecView::Path(s@),
    }
}

impl DeepView for Spec {
    type V = SpecView;

    open spec fn deep_view(&self) -> SpecView {
        spec_view(*self)
    }
}

/// Whether `s` begins with a git scheme or with the shorthand of a git host.
pub open spec fn names_git_url(s: Seq<char>) -> bool {
    ||| "git+"@.is_prefix_of(s)
    ||| "git://"@.is_prefix_of(s)
    ||| "git@"@.is_prefix_of(s)
    ||| "ssh://"@.is_prefix_of(s)
    ||| "github:"@.is_prefix_of(s)
    ||| "gitlab:"@.is_prefix_of(s)
    ||| "bitbucket:"@.is_prefix_of(s)
    ||| "gist:"@.is_prefix_of(s)
}

/// Whether `s` names a local path. `~/` leads to the home directory; `~` before a version
/// is a range.
pub open spec fn names_path(s: Seq<char>) -> bool {
    ||| "file:"@.is_prefix_of(s)
    ||| "./"@.is_prefix_of(s)
    ||| "../"@.is_prefix_of(s)
    ||| "/"@.is_prefix_of(s)
    ||| "~/"@.is_prefix_of(s)
}

/// What stands in `s` before the first `#`.
pub open spec fn before_hash(s: Seq<char>) -> Seq<char> {
    match cut_at_first(s, "#"@) {
        Some((head, _)) => head,
        None => s,
    }
}

/// Whether `s`, which names no path, is an `owner/repo`: it holds a slash before the
/// `#`, has no scope and no scheme.
pub open spec fn names_git_shorthand(s: Seq<char>) -> bool {
    let head = before_hash(s);
    contains(head, "/"@) && !"@"@.is_prefix_of(head) && !contains(head, "://"@)
}

/// The git source `s`, its committish split off at the first `#`.
pub open spec fn git_source(s: Seq<char>) -> SpecView {
    match cut_at_first(s, "#"@) {
        Some((source, committish)) => SpecView::Git { source, committish: Some(committish) },
        None => SpecView::Git { source: s, committish: None },
    }
}

/// The name and the inner specifier of an alias: the last `@` stands between them, unless
/// it opens a scope.
pub open spec fn alias_parts(rest: Seq<char>) -> (Seq<char>, Seq<char>) {
    match rfind(rest, "@"@) {
        Some(at) => if at > 0 {
            (rest.take(at), rest.skip(at + 1))
        } else {
            (rest, Seq::empty())
        },
        None => (rest, Seq::empty()),
    }
}

/// The specifier that the text `spec` is.
pub open spec fn spec_of(spec: Seq<char>) -> SpecView
    decreases spec.len(),
{
    let s = trimmed(spec);
    if "npm:"@.is_prefix_of(s) {
        let (name, inner) = alias_parts(s.skip(4));
        proof {
            lemma_alias_is_shorter(spec);
        }
        SpecView::Alias { name, spec: Box::new(spec_of(inner)) }
    } else if names_git_url(s) {
        git_source(s)
    } else if "http://"@.is_prefix_of(s) || "https://"@.is_prefix_of(s) {
        SpecView::Tarball(s)
    } else if names_path(s) {
        SpecView::Path(s)
    } else if names_git_shorthand(s) {
        git_source(s)
    } else {
        SpecView::Registry(s)
    }
}

/// The inner specifier of an alias is shorter than the alias.
pub proof fn lemma_alias_is_shorter(spec: Seq<char>)
    requires
        "npm:"@.is_prefix_of(trimmed(spec)),
    ensures
        alias_parts(trimmed(spec).skip(4)).1.len() < spec.len(),
        trimmed(spec).len() >= 4,
{
    let s = trimmed(spec);
    crate::text::lemma_trimmed_len(spec);
    reveal_strlit("npm:");
    reveal_strlit("@");
    crate::text::lemma_rfind_from(s.skip(4), "@"@, s.skip(4).len() - "@"@.len());
}

/// Whether a specifier leads to a tarball of the registry.
pub open spec fn leads_to_registry(spec: SpecView) -> bool
    decreases spec,
{
    match spec {
        SpecView::Registry(_) => true,
        SpecView::Alias { name, spec } => leads_to_registry(*spec),
        _ => false,
    }
}

impl Clone for Spec {
    fn clone(&self) -> (r: Spec)
        ensures
            r.deep_view() == self.deep_view(),
    {
        self.copy()
    }
}

impl Spec {
    /// The same specifier again.
    pub fn copy(&self) -> (r: Spec)
        ensures
            r.deep_view() == self.deep_view(),
        decreases self,
    {
        match self {
            Spec::Registry(text) => Spec::Registry(text.clone()),
            Spec::Alias { name, spec } => Spec::Alias {
                name: name.clone(),
                spec: Box::new(spec.copy()),
            },
            Spec::Git { source, committish } => Spec::Git {
                source: source.clone(),
                committish: copy_opt(committish),
            },
            Spec::Tarball(url) => Spec::Tarball(url.clone()),
            Spec::Path(path) => Spec::Path(path.clone()),
        }
    }

    /// Classifies the value of a `dependencies` map by its form.
    pub fn parse(spec: &str) -> (r: Spec)
        ensures
            r.deep_view() == spec_of(spec@),
        decreases spec@.len(),
    {
        let s = trim(spec);
        proof {
            reveal_strlit("npm:");
        }
        if let Some(rest) = strip_prefix(s.as_str(), "npm:") {
            let (name, inner) = split_alias(rest.as_str());
            proof {
                lemma_alias_is_shorter(spec@);
            }
            let target = Spec::parse(inner.as_str());
            return Spec::Alias { name, spec: Box::new(target) };
        }
        if is_git_url(s.as_str()) {
            return git_spec(s.as_str());
        }
        if starts_with(s.as_str(), "http://") || starts_with(s.as_str(), "https://") {
            return Spec::Tarball(s);
        }
        if is_path(s.as_str()) {
            return Spec::Path(s);
        }
        if is_git_shorthand(s.as_str()) {
            return git_spec(s.as_str());
        }
        Spec::Registry(s)
    }

    /// Whether the specifier leads to a tarball of the registry.
    pub fn is_registry(&self) -> (r: bool)
        ensures
            r == leads_to_registry(self.deep_view()),
        decreases self,
    {
        match self {
            Spec::Registry(_) => true,
            Spec::Alias { name, spec } => spec.is_registry(),
            _ => false,
        }
    }
}

/// The git source `s`, its committish split off at the first `#`.
fn git_spec(s: &str) -> (r: Spec)
    ensures
        r.deep_view() == git_source(s@),
{
    match split_once(s, "#") {
        Some((source, committish)) => Spec::Git { source, committish: Some(committish) },
        None => Spec::Git { source: s.to_owned(), committish: None },
    }
}

/// Whether `s` begins with a git scheme or with the shorthand of a git host.
fn is_git_url(s: &str) -> (r: bool)
    ensures
        r == names_git_url(s@),
{
    starts_with(s, "git+") || starts_with(s, "git://") || starts_with(s, "git@") || starts_with(
        s,
        "ssh://",
    ) || starts_with(s, "github:") || starts_with(s, "gitlab:") || starts_with(s, "bitbucket:")
        || starts_with(s, "gist:")
}

/// Whether `s`, which names no path, is an `owner/repo`.
fn is_git_shorthand(s: &str) -> (r: bool)
    ensures
        r == names_git_shorthand(s@),
{
    let head: String = match split_once(s, "#") {
        Some((head, _)) => head,
        None => s.to_owned(),
    };
    holds(head.as_str(), "/") && !starts_with(head.as_str(), "@") && !holds(head.as_str(), "://")
}

/// Whether `s` names a local path.
fn is_path(s: &str) -> (r: bool)
    ensures
        r == names_path(s@),
{
    starts_with(s, "file:") || starts_with(s, "./") || starts_with(s, "../") || starts_with(s, "/")
        || starts_with(s, "~/")
}

/// The name and the inner specifier of an alias.
fn split_alias(rest: &str) -> (r: (String, String))
    ensures
        r.deep_view() == alias_parts(rest@),
{
    proof {
        reveal_strlit("@");
        crate::text::lemma_rfind_from(rest@, "@"@, rest@.len() - "@"@.len());
    }
    match rsplit_once(rest, "@") {
        Some((name, inner)) => {
            if name.unicode_len() > 0 {
                (name, inner)
            } else {
                (rest.to_owned(), String::new())
            }
        },
        None => (rest.to_owned(), String::new()),
    }
}

/// Whether `s` asks for any version: it is empty, `*`, `x` or `latest`.
pub open spec fn asks_for_any(s: Seq<char>) -> bool {
    s == ""@ || s == "*"@ || s == "x"@ || s == "latest"@
}

/// The requirement that the text `spec` is, in its notation, or the reader's message: any
/// version for the words that ask for it, a pin for a full version, else as it is written.
pub open spec fn req_of(spec: Seq<char>) -> Result<Seq<char>, Seq<char>> {
    let s = trimmed(spec);
    if asks_for_any(s) {
        Ok("*"@)
    } else {
        match semver_version(s) {
            Ok(v) => Ok(pin_notation(v)),
            Err(_) => semver_req(s),
        }
    }
}

/// Whether `s` asks for any version.
fn is_any(s: &str) -> (r: bool)
    ensures
        r == asks_for_any(s@),
{
    same(s, "") || same(s, "*") || same(s, "x") || same(s, "latest")
}

/// The requirement that the text `spec` is: a full version is a pin; `*`, `x`, `latest` and
/// the empty text ask for nothing; everything else is read as comparators.
pub fn version_req(spec: &str) -> (r: Result<VersionReq, String>)
    ensures
        match r {
            Ok(req) => req_of(spec@) == Ok::<Seq<char>, Seq<char>>(req.deep_view()),
            Err(message) => req_of(spec@) == Err::<Seq<char>, Seq<char>>(message@),
        },
{
    let s = trim(spec);
    if is_any(s.as_str()) {
        return Ok(VersionReq::star());
    }
    match Version::parse(s.as_str()) {
        Ok(version) => Ok(VersionReq::pin(&version)),
        Err(_) => VersionReq::parse(s.as_str()),
    }
}

/// Why a text is no range.
#[derive(Debug, PartialEq, Eq)]
pub enum RangeError {
    /// It has the shape of a tag other than `latest`.
    DistTag(String),
    /// `semver` does not read it; the message is its own.
    Comparators(String),
}

/// What a [`RangeError`] holds.
#[verifier::ext_equal]
pub enum RangeErrorView {
    DistTag(Seq<char>),
    Comparators(Seq<char>),
}

impl DeepView for RangeError {
    type V = RangeErrorView;

    open spec fn deep_view(&self) -> RangeErrorView {
        match *self {
            RangeError::DistTag(s) => RangeErrorView::DistTag(s@),
            RangeError::Comparators(s) => RangeErrorView::Comparators(s@),
        }
    }
}

/// What is said of a range that cannot be read.
pub open spec fn range_error_text(e: RangeErrorView) -> Seq<char> {
    match e {
        RangeErrorView::DistTag(tag) => "version "@ + quoted(tag)
            + " looks like an npm dist-tag, which npm-utils doesn't resolve — pin a semver version or range (e.g. `^1.2.3`), or install from a package-lock.json"@,
        RangeErrorView::Comparators(message) => message,
    }
}

impl RangeError {
    /// What is said of the error.
    pub fn message(&self) -> (r: String)
        ensures
            r@ == range_error_text(self.deep_view()),
    {
        match self {
            RangeError::DistTag(tag) => {
                let mut out = joined("version ", quote(tag.as_str()).as_str());
                out.append(
                    " looks like an npm dist-tag, which npm-utils doesn't resolve — pin a semver version or range (e.g. `^1.2.3`), or install from a package-lock.json",
                );
                out
            },
            RangeError::Comparators(message) => message.clone(),
        }
    }
}

/// An ASCII letter.
pub open spec fn is_letter(c: char) -> bool {
    'a' <= c <= 'z' || 'A' <= c <= 'Z'
}

/// An ASCII letter or digit.
pub open spec fn is_alphanumeric(c: char) -> bool {
    is_letter(c) || '0' <= c <= '9'
}

/// Whether `s` has the shape of a tag: a letter, then letters, digits and hyphens.
pub open spec fn is_tag_shaped(s: Seq<char>) -> bool {
    &&& s.len() > 0
    &&& is_letter(s[0])
    &&& forall|i: int| 0 <= i < s.len() ==> is_alphanumeric(#[trigger] s[i]) || s[i] == '-'
}

/// Whether `s` has the shape of a tag.
fn looks_like_dist_tag(s: &str) -> (r: bool)
    ensures
        r == is_tag_shaped(s@),
{
    let chars = crate::text::chars_of(s);
    if chars.len() == 0 {
        return false;
    }
    let first = chars[0];
    if !(('a' <= first && first <= 'z') || ('A' <= first && first <= 'Z')) {
        return false;
    }
    let mut i: usize = 0;
    while i < chars.len()
        invariant
            i <= chars.len(),
            chars@ == s@,
            forall|j: int| 0 <= j < i ==> is_alphanumeric(#[trigger] s@[j]) || s@[j] == '-',
        decreases chars.len() - i,
    {
        let c = chars[i];
        if !(('a' <= c && c <= 'z') || ('A' <= c && c <= 'Z') || ('0' <= c && c <= '9') || c
            == '-') {
            assert(!is_alphanumeric(s@[i as int]));
            return false;
        }
        i += 1;
    }
    true
}

/// The requirement of one alternative of a range, in its notation: any version, a pin, or
/// comparators with white space between them, which have to hold together.
pub open spec fn alternative_of(alt: Seq<char>) -> Result<Seq<char>, RangeErrorView> {
    if alt == ""@ || alt == "*"@ || alt == "x"@ {
        Ok("*"@)
    } else {
        match semver_version(alt) {
            Ok(v) => Ok(pin_notation(v)),
            Err(_) => if is_tag_shaped(alt) {
                Err(RangeErrorView::DistTag(alt))
            } else {
                match semver_req(join(words_of(alt), ", "@)) {
                    Ok(notation) => Ok(notation),
                    Err(message) => Err(RangeErrorView::Comparators(message)),
                }
            },
        }
    }
}

/// The requirements of all alternatives, or the error of the first that has one.
pub open spec fn alternatives_of(alts: Seq<Seq<char>>) -> Result<Seq<Seq<char>>, RangeErrorView>
    decreases alts.len(),
{
    if alts.len() == 0 {
        Ok(Seq::empty())
    } else {
        match alternatives_of(alts.drop_last()) {
            Ok(before) => match alternative_of(trimmed(alts.last())) {
                Ok(notation) => Ok(before.push(notation)),
                Err(e) => Err(e),
            },
            Err(e) => Err(e),
        }
    }
}

/// The range that the text `spec` is: the requirements of its alternatives, of which `||`
/// stands between two.
pub open spec fn range_of(spec: Seq<char>) -> Result<Seq<Seq<char>>, RangeErrorView> {
    let s = trimmed(spec);
    if asks_for_any(s) {
        Ok(seq!["*"@])
    } else {
        alternatives_of(split_on(s, "||"@))
    }
}

/// Whether some alternative of the range accepts the version.
pub open spec fn range_accepts(range: Seq<Seq<char>>, version: VersionView) -> bool {
    exists|i: int| 0 <= i < range.len() && req_accepts(#[trigger] range[i], version)
}

/// Reads one alternative of a range.
fn parse_alternative(alt: &str) -> (r: Result<VersionReq, RangeError>)
    ensures
        match r {
            Ok(req) => alternative_of(alt@) == Ok::<Seq<char>, RangeErrorView>(req.deep_view()),
            Err(e) => alternative_of(alt@) == Err::<Seq<char>, RangeErrorView>(e.deep_view()),
        },
{
    if same(alt, "") || same(alt, "*") || same(alt, "x") {
        return Ok(VersionReq::star());
    }
    match Version::parse(alt) {
        Ok(version) => Ok(VersionReq::pin(&version)),
        Err(_) => {
            if looks_like_dist_tag(alt) {
                return Err(RangeError::DistTag(alt.to_owned()));
            }
            let comparators = join_texts(&words(alt), ", ");
            match VersionReq::parse(comparators.as_str()) {
                Ok(req) => Ok(req),
                Err(message) => Err(RangeError::Comparators(message)),
            }
        },
    }
}

/// A range of versions: alternatives of which one has to accept a version.
#[derive(Debug)]
pub struct Range {
    alternatives: Vec<VersionReq>,
}

impl DeepView for Range {
    type V = Seq<Seq<char>>;

    closed spec fn deep_view(&self) -> Seq<Seq<char>> {
        self.alternatives.deep_view()
    }
}

impl Range {
    /// The range `*`.
    pub fn any() -> (r: Range)
        ensures
            r.deep_view() == seq!["*"@],
    {
        let r = Range { alternatives: vec![VersionReq::star()] };
        assert(r.deep_view() =~= seq!["*"@]);
        r
    }

    /// Reads a range: `||` stands between its alternatives, white space between the
    /// comparators of one.
    pub fn parse(spec: &str) -> (r: Result<Range, RangeError>)
        ensures
            match r {
                Ok(range) => range_of(spec@) == Ok::<Seq<Seq<char>>, RangeErrorView>(
                    range.deep_view(),
                ),
                Err(e) => range_of(spec@) == Err::<Seq<Seq<char>>, RangeErrorView>(e.deep_view()),
            },
    {
        let s = trim(spec);
        if is_any(s.as_str()) {
            return Ok(Range::any());
        }
        proof {
            reveal_strlit("||");
        }
        let alts = split_text(s.as_str(), "||");
        let ghost all = alts.deep_view();
        let mut alternatives: Vec<VersionReq> = Vec::new();
        let mut i: usize = 0;
        assert(alternatives.deep_view() =~= Seq::<Seq<char>>::empty());
        while i < alts.len()
            invariant
                i <= alts.len(),
                all == alts.deep_view(),
                range_of(spec@) == alternatives_of(all),
                alternatives_of(all.take(i as int)) == Ok::<Seq<Seq<char>>, RangeErrorView>(
                    alternatives.deep_view(),
                ),
            decreases alts.len() - i,
        {
            let ghost done = alternatives.deep_view();
            let alt = trim(alts[i].as_str());
            proof {
                assert(all.take(i + 1).drop_last() =~= all.take(i as int));
            }
            match parse_alternative(alt.as_str()) {
                Ok(req) => {
                    let ghost notation = req.deep_view();
                    alternatives.push(req);
                    assert(alternatives.deep_view() =~= done.push(notation));
                },
                Err(e) => {
                    proof {
                        lemma_alternatives_fail(all, i + 1);
                    }
                    return Err(e);
                },
            }
            i += 1;
        }
        assert(all.take(all.len() as int) =~= all);
        Ok(Range { alternatives })
    }

    /// The range of one requirement.
    pub fn from_req(req: VersionReq) -> (r: Range)
        ensures
            r.deep_view() == seq![req.deep_view()],
    {
        let ghost notation = req.deep_view();
        let r = Range { alternatives: vec![req] };
        assert(r.deep_view() =~= seq![notation]);
        r
    }

    /// The same range again.
    pub fn copy(&self) -> (r: Range)
        ensures
            r.deep_view() == self.deep_view(),
    {
        let mut alternatives: Vec<VersionReq> = Vec::new();
        let mut i: usize = 0;
        while i < self.alternatives.len()
            invariant
                i <= self.alternatives.len(),
                alternatives.deep_view() =~= self.alternatives.deep_view().take(i as int),
            decreases self.alternatives.len() - i,
        {
            let ghost done = alternatives.deep_view();
            let req = self.alternatives[i].copy();
            let ghost notation = req.deep_view();
            alternatives.push(req);
            assert(alternatives.deep_view() =~= done.push(notation));
            i += 1;
        }
        Range { alternatives }
    }

    /// Whether some alternative accepts `version`. `*` accepts the versions without a
    /// pre-release, and a pinned version accepts itself, whatever the build.
    pub fn matches(&self, version: &Version) -> (r: bool)
        ensures
            r == range_accepts(self.deep_view(), version.deep_view()),
            self.deep_view().len() == 1 && self.deep_view()[0] == "*"@ ==> r == (
            version.deep_view().pre.len() == 0),
            forall|v: VersionView| #[trigger]
                is_version(v) && self.deep_view().len() == 1 && self.deep_view()[0] == pin_notation(
                    v,
                ) ==> r == same_release(v, version.deep_view()),
    {
        let ghost range = self.deep_view();
        let mut i: usize = 0;
        while i < self.alternatives.len()
            invariant
                i <= self.alternatives.len(),
                range == self.alternatives.deep_view(),
                forall|j: int| 0 <= j < i ==> !req_accepts(#[trigger] range[j], version.deep_view()),
                i > 0 && range[0] == "*"@ ==> version.deep_view().pre.len() > 0,
                forall|v: VersionView|
                    i > 0 && #[trigger] is_version(v) && range[0] == pin_notation(v)
                        ==> !same_release(v, version.deep_view()),
            decreases self.alternatives.len() - i,
        {
            if self.alternatives[i].matches(version) {
                assert(req_accepts(range[i as int], version.deep_view()));
                return true;
            }
            i += 1;
        }
        false
    }

    /// The range in writing: its requirements with ` || ` between them.
    pub fn to_string(&self) -> (r: String)
        ensures
            r@ == join(self.deep_view(), " || "@),
    {
        let mut out = String::new();
        let mut i: usize = 0;
        let ghost range = self.deep_view();
        assert(out@ =~= Seq::<char>::empty());
        while i < self.alternatives.len()
            invariant
                i <= self.alternatives.len(),
                range == self.alternatives.deep_view(),
                out@ == join(range.take(i as int), " || "@),
            decreases self.alternatives.len() - i,
        {
            if i > 0 {
                out.append(" || ");
            }
            out.append(self.alternatives[i].to_string().as_str());
            proof {
                let next = range.take(i + 1);
                assert(next.drop_last() =~= range.take(i as int));
                if i == 0 {
                    assert(out@ =~= next[0]);
                }
            }
            i += 1;
        }
        assert(range.take(range.len() as int) =~= range);
        out
    }
}

impl Clone for Range {
    fn clone(&self) -> (r: Range)
        ensures
            r.deep_view() == self.deep_view(),
    {
        self.copy()
    }
}

impl std::str::FromStr for Range {
    type Err = RangeError;

    fn from_str(s: &str) -> (r: Result<Range, RangeError>)
        ensures
            match r {
                Ok(range) => range_of(s@) == Ok::<Seq<Seq<char>>, RangeErrorView>(
                    range.deep_view(),
                ),
                Err(e) => range_of(s@) == Err::<Seq<Seq<char>>, RangeErrorView>(e.deep_view()),
            },
    {
        Range::parse(s)
    }
}

impl From<VersionReq> for Range {
    fn from(req: VersionReq) -> (r: Range)
        ensures
            r.deep_view() == seq![req.deep_view()],
    {
        Range::from_req(req)
    }
}

impl vstd::std_specs::convert::FromSpecImpl<VersionReq> for Range {
    open spec fn obeys_from_spec() -> bool {
        false
    }

    open spec fn from_spec(req: VersionReq) -> Range {
        arbitrary()
    }
}

/// An error among the first alternatives is the error of all.
proof fn lemma_alternatives_fail(alts: Seq<Seq<char>>, n: int)
    requires
        0 <= n <= alts.len(),
        alternatives_of(alts.take(n)) is Err,
    ensures
        alternatives_of(alts) == alternatives_of(alts.take(n)),
    decreases alts.len() - n,
{
    if n < alts.len() {
        assert(alts.take(n + 1).drop_last() =~= alts.take(n));
        lemma_alternatives_fail(alts, n + 1);
    } else {
        assert(alts.take(n) =~= alts);
    }
}

/// A version in writing begins with a digit.
proof fn lemma_version_starts_with_digit(v: VersionView)
    ensures
        version_text(v).len() > 0,
        '0' <= version_text(v)[0] <= '9',
{
    crate::text::lemma_decimal(v.major as nat);
    let d = crate::text::decimal_of(v.major as nat);
    assert(version_text(v)[0] == d[0]);
}

/// A full version is a pin, both as a requirement and as a range.
pub proof fn bare_version_is_a_pin(v: VersionView)
    requires
        is_version(v),
    ensures
        req_of(version_text(v)) == Ok::<Seq<char>, Seq<char>>(pin_notation(v)),
        range_of(version_text(v)) == Ok::<Seq<Seq<char>>, RangeErrorView>(seq![pin_notation(v)]),
{
    let s = version_text(v);
    lemma_version_starts_with_digit(v);
    reveal_strlit("");
    reveal_strlit("*");
    reveal_strlit("x");
    reveal_strlit("latest");
    reveal_strlit("||");
    assert("x"@[0] == 'x');
    assert("*"@[0] == '*');
    assert("latest"@[0] == 'l');
    crate::text::lemma_trimmed_as_is(s);
    assert(trimmed(s) == s);
    assert(!asks_for_any(s));
    crate::text::lemma_find_from(s, "||"@, 0);
    assert(find(s, "||"@) is None) by {
        if let Some(at) = find(s, "||"@) {
            assert(s.subrange(at, at + 2)[0] == s[at]);
            assert("||"@[0] == '|');
        }
    }
    assert(split_on(s, "||"@) == seq![s]);
    assert(seq![s].drop_last() =~= Seq::<Seq<char>>::empty());
    assert(alternatives_of(seq![s].drop_last()) == Ok::<Seq<Seq<char>>, RangeErrorView>(
        Seq::empty(),
    ));
    assert(alternative_of(s) == Ok::<Seq<char>, RangeErrorView>(pin_notation(v)));
    assert(Seq::<Seq<char>>::empty().push(pin_notation(v)) =~= seq![pin_notation(v)]);
}

} // verus!
