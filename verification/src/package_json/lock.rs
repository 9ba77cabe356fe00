//! `package-lock.json`, versions 2 and 3: the flat `packages` map as plain data.
//!
//! Nothing here touches files: a caller makes an install path of a key itself.

pub use super::render::{lock_document, render_v3};

use super::{license_in, normalize_license, License};
use crate::json::{text_members, text_members_of, texts, texts_of, Json, JsonView};
use crate::sort::{is_sorted, sort_stable, stable_sort, Sortable};
use crate::text::{
    after_last, at_most, copy_opt, decimal, decimal_of, joined, last_piece, same, starts_with,
    text_leq,
};
use vstd::prelude::*;
use vstd::string::*;

verus! {

/// A `package-lock.json`.
#[derive(Debug, Clone)]
pub struct Lockfile {
    /// The `lockfileVersion`, at least 2.
    pub version: u64,
    /// Every entry of the `packages` map, sorted by key, with the root entry.
    pub packages: Vec<LockedPackage>,
}

/// One entry of the `packages` map.
#[derive(Debug, Clone, PartialEq, Eq)]
pub struct LockedPackage {
    /// The key: empty for the root project, else a path under `node_modules/`.
    pub key: String,
    /// The package name: what stands behind the last `node_modules/` of the key.
    pub name: String,
    /// The `version`; empty where there is none.
    pub version: String,
    /// The `resolved` source: a registry URL, a git source or a `file:` path.
    pub resolved: Option<String>,
    /// The `integrity` (`sha512-…`).
    pub integrity: Option<String>,
    /// The declared license.
    pub license: Option<String>,
    /// `dev`: only in the tree of the development dependencies.
    pub dev: bool,
    /// `optional`: only in the tree of the optional dependencies.
    pub optional: bool,
    /// `devOptional`: in both of these trees.
    pub dev_optional: bool,
    /// `link`: a symbolic link to a local path, for which nothing is fetched.
    pub link: bool,
    /// The `os` constraints.
    pub os: Vec<String>,
    /// The `cpu` constraints.
    pub cpu: Vec<String>,
    /// The `bin` entries: names with paths within the package.
    pub bin: Vec<(String, String)>,
}

/// What a [`LockedPackage`] holds.
#[verifier::ext_equal]
pub struct LockedView {
    pub key: Seq<char>,
    pub name: Seq<char>,
    pub version: Seq<char>,
    pub resolved: Option<Seq<char>>,
    pub integrity: Option<Seq<char>>,
    pub license: Option<Seq<char>>,
    pub dev: bool,
    pub optional: bool,
    pub dev_optional: bool,
    pub link: bool,
    pub os: Seq<Seq<char>>,
    pub cpu: Seq<Seq<char>>,
    pub bin: Seq<(Seq<char>, Seq<char>)>,
}

impl DeepView for LockedPackage {
    type V = LockedView;

    open spec fn deep_view(&self) -> LockedView {
        LockedView {
            key: self.key@,
            name: self.name@,
            version: self.version@,
            resolved: self.resolved.deep_view(),
            integrity: self.integrity.deep_view(),
            license: self.license.deep_view(),
            dev: self.dev,
            optional: self.optional,
            dev_optional: self.dev_optional,
            link: self.link,
            os: self.os.deep_view(),
            cpu: self.cpu.deep_view(),
            bin: self.bin.deep_view(),
        }
    }
}

/// What a [`Lockfile`] holds.
#[verifier::ext_equal]
pub struct LockfileView {
    pub version: u64,
    pub packages: Seq<LockedView>,
}

impl DeepView for Lockfile {
    type V = LockfileView;

    open spec fn deep_view(&self) -> LockfileView {
        LockfileView { version: self.version, packages: self.packages.deep_view() }
    }
}

impl Sortable for LockedPackage {
    open spec fn leq(a: LockedView, b: LockedView) -> bool {
        text_leq(a.key, b.key)
    }

    proof fn leq_total(a: LockedView, b: LockedView) {
        crate::text::lemma_text_total(a.key, b.key);
    }

    proof fn leq_transitive(a: LockedView, b: LockedView, c: LockedView) {
        crate::text::lemma_text_transitive(a.key, b.key, c.key);
    }

    fn may_precede(&self, other: &LockedPackage) -> (r: bool) {
        at_most(self.key.as_str(), other.key.as_str())
    }
}

impl License for LockedPackage {
    open spec fn declared_license(&self) -> Option<Seq<char>> {
        self.license.deep_view()
    }

    fn license(&self) -> (r: Option<String>) {
        copy_opt(&self.license)
    }
}

/// Why a document is no lockfile.
#[derive(Debug, PartialEq, Eq)]
pub enum LockError {
    /// It is no JSON; the message is the reader's.
    Json(String),
    /// Its `lockfileVersion` is below 2.
    Unsupported(u64),
    /// It has no `packages` map.
    NoPackages,
}

/// What a [`LockError`] holds.
#[verifier::ext_equal]
pub enum LockErrorView {
    Json(Seq<char>),
    Unsupported(u64),
    NoPackages,
}

impl DeepView for LockError {
    type V = LockErrorView;

    open spec fn deep_view(&self) -> LockErrorView {
        match *self {
            LockError::Json(m) => LockErrorView::Json(m@),
            LockError::Unsupported(n) => LockErrorView::Unsupported(n),
            LockError::NoPackages => LockErrorView::NoPackages,
        }
    }
}

/// What is said of a lockfile that cannot be read.
pub open spec fn lock_error_text(e: LockErrorView) -> Seq<char> {
    match e {
        LockErrorView::Json(message) => message,
        LockErrorView::Unsupported(n) => "package-lock.json lockfileVersion "@ + decimal_of(
            n as nat,
        ) + " is unsupported (need 2 or 3, which carry the `packages` map)"@,
        LockErrorView::NoPackages => "package-lock.json has no `packages` map"@,
    }
}

impl LockError {
    /// What is said of the error.
    pub fn message(&self) -> (r: String)
        ensures
            r@ == lock_error_text(self.deep_view()),
    {
        match self {
            LockError::Json(message) => message.clone(),
            LockError::Unsupported(n) => {
                let mut out = joined("package-lock.json lockfileVersion ", decimal(*n).as_str());
                out.append(" is unsupported (need 2 or 3, which carry the `packages` map)");
                out
            },
            LockError::NoPackages => "package-lock.json has no `packages` map".to_owned(),
        }
    }
}

/// The text of the member `key` of an entry, or the empty text.
pub open spec fn text_or_empty(entry: JsonView, key: Seq<char>) -> Seq<char> {
    match entry.text(key) {
        Some(s) => s,
        None => ""@,
    }
}

/// Whether the member `key` of an entry is true.
pub open spec fn flag(entry: JsonView, key: Seq<char>) -> bool {
    match entry.get(key) {
        Some(v) => v.as_bool() == Some(true),
        None => false,
    }
}

/// The texts in the array that is the member `key` of an entry.
pub open spec fn text_list(entry: JsonView, key: Seq<char>) -> Seq<Seq<char>> {
    match entry.items(key) {
        Some(items) => texts_of(items),
        None => Seq::empty(),
    }
}

/// The executables of an entry: those of the `bin` object, or the one path of a `bin` text
/// under the name of the package without its scope.
pub open spec fn bins_of(entry: JsonView, name: Seq<char>) -> Seq<(Seq<char>, Seq<char>)> {
    match entry.get("bin"@) {
        Some(JsonView::Str(path)) => seq![(last_piece(name, "/"@), path)],
        Some(JsonView::Object(members)) => text_members_of(members),
        _ => Seq::empty(),
    }
}

/// The entry of the `packages` map under `key`.
pub open spec fn locked(key: Seq<char>, entry: JsonView) -> LockedView {
    let name = last_piece(key, "node_modules/"@);
    LockedView {
        key,
        name,
        version: text_or_empty(entry, "version"@),
        resolved: entry.text("resolved"@),
        integrity: entry.text("integrity"@),
        license: license_in(entry),
        dev: flag(entry, "dev"@),
        optional: flag(entry, "optional"@),
        dev_optional: flag(entry, "devOptional"@),
        link: flag(entry, "link"@),
        os: text_list(entry, "os"@),
        cpu: text_list(entry, "cpu"@),
        bin: bins_of(entry, name),
    }
}

/// The entry of a member of the `packages` map, where its value is an object.
pub open spec fn locked_member() -> spec_fn((Seq<char>, JsonView)) -> Option<LockedView> {
    |m: (Seq<char>, JsonView)|
        match m.1 {
            JsonView::Object(_) => Some(locked(m.0, m.1)),
            _ => None,
        }
}

/// The `lockfileVersion` of a document, 0 where it has none.
pub open spec fn lock_version(doc: JsonView) -> u64 {
    match doc.get("lockfileVersion"@) {
        Some(v) => match v.as_u64() {
            Some(n) => n,
            None => 0,
        },
        None => 0,
    }
}

/// The lockfile that a document is.
pub open spec fn lockfile_of(doc: JsonView) -> Result<LockfileView, LockErrorView> {
    if lock_version(doc) < 2 {
        Err(LockErrorView::Unsupported(lock_version(doc)))
    } else {
        match doc.members("packages"@) {
            Some(packages) => Ok(
                LockfileView {
                    version: lock_version(doc),
                    packages: stable_sort::<LockedPackage>(packages.filter_map(locked_member())),
                },
            ),
            None => Err(LockErrorView::NoPackages),
        }
    }
}

/// Whether `constraint` lets `host` through: no value excludes it by a `!` before its name,
/// and where some value has no `!`, one of these is its name.
pub open spec fn allows(constraint: Seq<Seq<char>>, host: Seq<char>) -> bool {
    &&& forall|i: int| 0 <= i < constraint.len() ==> #[trigger] constraint[i] != "!"@ + host
    &&& (exists|i: int|
        0 <= i < constraint.len() && !"!"@.is_prefix_of(#[trigger] constraint[i])) ==> exists|
        i: int,
    |
        0 <= i < constraint.len() && !"!"@.is_prefix_of(constraint[i]) && #[trigger] constraint[i]
            == host
}

/// The name that npm gives to the operating system `rust`.
pub open spec fn npm_os(rust: Seq<char>) -> Seq<char> {
    if rust == "macos"@ {
        "darwin"@
    } else if rust == "windows"@ {
        "win32"@
    } else {
        rust
    }
}

/// The name that npm gives to the processor architecture `rust`.
pub open spec fn npm_cpu(rust: Seq<char>) -> Seq<char> {
    if rust == "x86_64"@ {
        "x64"@
    } else if rust == "aarch64"@ {
        "arm64"@
    } else if rust == "x86"@ {
        "ia32"@
    } else {
        rust
    }
}

/// Whether the entry may be installed on the host.
pub open spec fn platform_allows(p: LockedView, host_os: Seq<char>, host_arch: Seq<char>) -> bool {
    allows(p.os, npm_os(host_os)) && allows(p.cpu, npm_cpu(host_arch))
}

/// Whether the entry is a package under `node_modules/` and no link.
pub open spec fn is_package(p: LockedView) -> bool {
    "node_modules/"@.is_prefix_of(p.key) && !p.link
}

/// The entries that are to be installed on the host.
pub open spec fn installs_on(host_os: Seq<char>, host_arch: Seq<char>) -> spec_fn(LockedView) -> bool {
    |p: LockedView| is_package(p) && platform_allows(p, host_os, host_arch)
}

impl Lockfile {
    /// Reads a `package-lock.json`, version 2 or 3.
    pub fn parse(s: &str) -> (r: Result<Lockfile, LockError>)
        ensures
            match crate::json::json_reading(s@) {
                Ok(doc) => match r {
                    Ok(lock) => lockfile_of(doc) == Ok::<LockfileView, LockErrorView>(
                        lock.deep_view(),
                    ),
                    Err(e) => lockfile_of(doc) == Err::<LockfileView, LockErrorView>(e.deep_view()),
                },
                Err(message) => r matches Err(e) && e.deep_view() == LockErrorView::Json(message),
            },
    {
        match Json::parse(s) {
            Ok(doc) => Lockfile::from_document(&doc),
            Err(message) => Err(LockError::Json(message)),
        }
    }

    /// The lockfile that a document is.
    pub fn from_document(doc: &Json) -> (r: Result<Lockfile, LockError>)
        ensures
            match r {
                Ok(lock) => lockfile_of(doc.deep_view()) == Ok::<LockfileView, LockErrorView>(
                    lock.deep_view(),
                ),
                Err(e) => lockfile_of(doc.deep_view()) == Err::<LockfileView, LockErrorView>(
                    e.deep_view(),
                ),
            },
    {
        let version: u64 = match doc.get("lockfileVersion") {
            Some(v) => match v.as_u64() {
                Some(n) => n,
                None => 0,
            },
            None => 0,
        };
        if version < 2 {
            return Err(LockError::Unsupported(version));
        }
        match doc.members("packages") {
            Some(packages) => {
                let ghost all = packages.deep_view();
                let mut out: Vec<LockedPackage> = Vec::new();
                let mut i: usize = 0;
                assert(out.deep_view() =~= all.take(0).filter_map(locked_member())) by {
                    reveal(Seq::filter_map);
                }
                while i < packages.len()
                    invariant
                        i <= packages.len(),
                        all == packages.deep_view(),
                        out.deep_view() == all.take(i as int).filter_map(locked_member()),
                    decreases packages.len() - i,
                {
                    broadcast use {crate::json::lemma_array_view, crate::json::lemma_object_view};

                    let ghost done = out.deep_view();
                    let key = &packages[i].0;
                    let entry = &packages[i].1;
                    proof {
                        all.lemma_filter_map_take_succ(locked_member(), i as int);
                        assert(all[i as int] == (key@, entry.deep_view()));
                    }
                    match entry {
                        Json::Object(_) => {
                            let p = LockedPackage::from_entry(key.as_str(), entry);
                            let ghost v = p.deep_view();
                            out.push(p);
                            assert(out.deep_view() =~= done + seq![v]);
                        },
                        _ => {},
                    }
                    i += 1;
                }
                assert(all.take(all.len() as int) =~= all);
                Ok(Lockfile { version, packages: sort_stable(out) })
            },
            None => Err(LockError::NoPackages),
        }
    }

    /// The entries to install on the host: packages under `node_modules/` that are no links
    /// and whose constraints let the host through. `host_os` and `host_arch` are spelled as
    /// Rust spells them.
    pub fn installable<'a>(&'a self, host_os: &str, host_arch: &str) -> (r: Vec<&'a LockedPackage>)
        ensures
            r.deep_view() == self.deep_view().packages.filter(installs_on(host_os@, host_arch@)),
    {
        let ghost keep = installs_on(host_os@, host_arch@);
        let ghost all = self.packages.deep_view();
        let mut out: Vec<&'a LockedPackage> = Vec::new();
        let mut i: usize = 0;
        assert(out.deep_view() =~= all.take(0).filter(keep)) by {
            reveal(Seq::filter);
        }
        while i < self.packages.len()
            invariant
                i <= self.packages.len(),
                all == self.packages.deep_view(),
                keep == installs_on(host_os@, host_arch@),
                out.deep_view() == all.take(i as int).filter(keep),
            decreases self.packages.len() - i,
        {
            let ghost done = out.deep_view();
            let p = &self.packages[i];
            proof {
                assert(all.take(i + 1) =~= all.take(i as int).push(all[i as int]));
                all.take(i as int).lemma_filter_push(all[i as int], keep);
            }
            if starts_with(p.key.as_str(), "node_modules/") && !p.link && p.matches_platform(
                host_os,
                host_arch,
            ) {
                out.push(p);
                assert(out.deep_view() =~= done.push(p.deep_view()));
            }
            i += 1;
        }
        assert(all.take(all.len() as int) =~= all);
        out
    }
}

impl LockedPackage {
    /// The entry of the `packages` map under `key`.
    pub fn from_entry(key: &str, entry: &Json) -> (r: LockedPackage)
        ensures
            r.deep_view() == locked(key@, entry.deep_view()),
    {
        let name = after_last(key, "node_modules/");
        LockedPackage {
            bin: bin_entries(entry, name.as_str()),
            key: key.to_owned(),
            name,
            version: string_field(entry, "version"),
            resolved: opt_string(entry, "resolved"),
            integrity: opt_string(entry, "integrity"),
            license: normalize_license(entry),
            dev: bool_field(entry, "dev"),
            optional: bool_field(entry, "optional"),
            dev_optional: bool_field(entry, "devOptional"),
            link: bool_field(entry, "link"),
            os: string_list(entry, "os"),
            cpu: string_list(entry, "cpu"),
        }
    }

    /// Whether the source is an http or https URL.
    pub fn is_registry_tarball(&self) -> (r: bool)
        ensures
            r == match self.deep_view().resolved {
                Some(url) => "https://"@.is_prefix_of(url) || "http://"@.is_prefix_of(url),
                None => false,
            },
    {
        match &self.resolved {
            Some(url) => starts_with(url.as_str(), "https://") || starts_with(
                url.as_str(),
                "http://",
            ),
            None => false,
        }
    }

    /// Whether the constraints let the host through. `host_os` and `host_arch` are spelled
    /// as Rust spells them.
    pub fn matches_platform(&self, host_os: &str, host_arch: &str) -> (r: bool)
        ensures
            r == platform_allows(self.deep_view(), host_os@, host_arch@),
    {
        constraint_allows(&self.os, node_os(host_os)) && constraint_allows(
            &self.cpu,
            node_cpu(host_arch),
        )
    }
}

/// Whether `constraint` lets `host` through.
pub fn constraint_allows(constraint: &[String], host: &str) -> (r: bool)
    ensures
        r == allows(constraint.deep_view(), host@),
{
    let excluded = joined("!", host);
    let ghost all = constraint.deep_view();
    let mut has_positive = false;
    let mut matched_positive = false;
    let mut i: usize = 0;
    while i < constraint.len()
        invariant
            i <= constraint.len(),
            all == constraint.deep_view(),
            excluded@ == "!"@ + host@,
            forall|j: int| 0 <= j < i ==> #[trigger] all[j] != excluded@,
            has_positive == exists|j: int| 0 <= j < i && !"!"@.is_prefix_of(#[trigger] all[j]),
            matched_positive == exists|j: int|
                0 <= j < i && !"!"@.is_prefix_of(all[j]) && #[trigger] all[j] == host@,
        decreases constraint.len() - i,
    {
        let item = &constraint[i];
        assert(all[i as int] == item@);
        if starts_with(item.as_str(), "!") {
            if same(item.as_str(), excluded.as_str()) {
                return false;
            }
        } else {
            has_positive = true;
            if same(item.as_str(), host) {
                matched_positive = true;
            }
            assert(excluded@ != item@) by {
                assert("!"@ =~= excluded@.subrange(0, "!"@.len() as int));
            }
        }
        i += 1;
    }
    !has_positive || matched_positive
}

/// The name that npm gives to the operating system `rust`.
fn node_os(rust: &str) -> (r: &str)
    ensures
        r@ == npm_os(rust@),
{
    if same(rust, "macos") {
        "darwin"
    } else if same(rust, "windows") {
        "win32"
    } else {
        rust
    }
}

/// The name that npm gives to the processor architecture `rust`.
fn node_cpu(rust: &str) -> (r: &str)
    ensures
        r@ == npm_cpu(rust@),
{
    if same(rust, "x86_64") {
        "x64"
    } else if same(rust, "aarch64") {
        "arm64"
    } else if same(rust, "x86") {
        "ia32"
    } else {
        rust
    }
}

/// The text of the member `key` of an entry, or the empty text.
fn string_field(entry: &Json, key: &str) -> (r: String)
    ensures
        r@ == text_or_empty(entry.deep_view(), key@),
{
    match entry.text(key) {
        Some(s) => s.to_owned(),
        None => "".to_owned(),
    }
}

/// The text of the member `key` of an entry.
fn opt_string(entry: &Json, key: &str) -> (r: Option<String>)
    ensures
        r.deep_view() == entry.deep_view().text(key@),
{
    match entry.text(key) {
        Some(s) => Some(s.to_owned()),
        None => None,
    }
}

/// Whether the member `key` of an entry is true.
fn bool_field(entry: &Json, key: &str) -> (r: bool)
    ensures
        r == flag(entry.deep_view(), key@),
{
    match entry.get(key) {
        Some(v) => match v.as_bool() {
            Some(b) => b,
            None => false,
        },
        None => false,
    }
}

/// The texts in the array that is the member `key` of an entry.
fn string_list(entry: &Json, key: &str) -> (r: Vec<String>)
    ensures
        r.deep_view() == text_list(entry.deep_view(), key@),
{
    match entry.items(key) {
        Some(items) => texts(items),
        None => {
            let r: Vec<String> = Vec::new();
            assert(r.deep_view() =~= Seq::<Seq<char>>::empty());
            r
        },
    }
}

/// The executables of an entry.
fn bin_entries(entry: &Json, name: &str) -> (r: Vec<(String, String)>)
    ensures
        r.deep_view() == bins_of(entry.deep_view(), name@),
{
    broadcast use {crate::json::lemma_array_view, crate::json::lemma_object_view};

    match entry.get("bin") {
        Some(Json::Str(path)) => {
            let bin_name = after_last(name, "/");
            let ghost pair = (bin_name@, path@);
            let r = vec![(bin_name, path.clone())];
            assert(r.deep_view() =~= seq![pair]);
            r
        },
        Some(Json::Object(members)) => text_members(members),
        _ => {
            let r: Vec<(String, String)> = Vec::new();
            assert(r.deep_view() =~= Seq::<(Seq<char>, Seq<char>)>::empty());
            r
        },
    }
}

/// The packages of a lockfile, and those of them that are installed on a host, stand in the
/// order of their keys, whatever their order in the file.
pub proof fn installs_stand_by_key(doc: JsonView, host_os: Seq<char>, host_arch: Seq<char>)
    requires
        lockfile_of(doc) is Ok,
    ensures
        ({
            let packages = lockfile_of(doc)->Ok_0.packages;
            &&& is_sorted::<LockedPackage>(packages)
            &&& is_sorted::<LockedPackage>(packages.filter(installs_on(host_os, host_arch)))
        }),
{
    let found = doc.members("packages"@)->Some_0.filter_map(locked_member());
    crate::sort::sorting_is_stable::<LockedPackage>(found);
    crate::sort::lemma_filtered_sorted::<LockedPackage>(
        lockfile_of(doc)->Ok_0.packages,
        installs_on(host_os, host_arch),
    );
}

} // verus!
