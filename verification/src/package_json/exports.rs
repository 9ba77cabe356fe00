//! The browser entry points of a package: its `exports`, and `module`, `browser` and `main`
//! where it has none.

use super::{license_in, normalize_license, License};
use crate::json::{
    distinct_keys, distinct_members, lemma_distinct_lookup, lemma_lookup_index, lookup,
    lookup_member, Json, JsonView,
};
use crate::sort::{lemma_mapped, lemma_mapped_in_order};
use crate::text::{
    any_is, contains, ends_with, find, find_in, replace_char, replaced, same, split_at_char,
    split_char, split_once, starts_with, strip_prefix, stripped, text_between, trim_start,
    trimmed_start,
};
use vstd::prelude::*;
use vstd::string::*;

verus! {

/// The `type` of a manifest.
#[derive(Debug, Clone, Copy, PartialEq, Eq)]
pub enum PackageType {
    Module,
    CommonJs,
}

/// An entry of an import map.
#[derive(Debug, Clone, PartialEq, Eq)]
pub enum Entry {
    /// The package name itself leads to this path.
    Bare(String),
    /// The subpath of the package leads to `target`.
    Subpath { subpath: String, target: String },
    /// What begins with `subpath` is to be found in the directory `dir`.
    Prefix { subpath: String, dir: String },
}

/// What an [`Entry`] holds.
#[verifier::ext_equal]
pub enum EntryView {
    Bare(Seq<char>),
    Subpath { subpath: Seq<char>, target: Seq<char> },
    Prefix { subpath: Seq<char>, dir: Seq<char> },
}

impl DeepView for Entry {
    type V = EntryView;

    open spec fn deep_view(&self) -> EntryView {
        match *self {
            Entry::Bare(t) => EntryView::Bare(t@),
            Entry::Subpath { subpath, target } => EntryView::Subpath {
                subpath: subpath@,
                target: target@,
            },
            Entry::Prefix { subpath, dir } => EntryView::Prefix { subpath: subpath@, dir: dir@ },
        }
    }
}

/// Whether an `exports` object maps subpaths and not conditions: a key begins with a dot.
pub open spec fn maps_subpaths(members: Seq<(Seq<char>, JsonView)>) -> bool {
    exists|i: int| 0 <= i < members.len() && "."@.is_prefix_of((#[trigger] members[i]).0)
}

/// The target that a browser takes: a text itself, the first of an array that has one, and
/// of an object the first of `browser`, `module`, `import` and `default` that has one.
pub open spec fn selected(node: JsonView) -> Option<Seq<char>>
    decreases node, 0nat,
{
    match node {
        JsonView::Str(s) => Some(s),
        JsonView::Array(items) => selected_from(items, 0),
        JsonView::Object(members) => match selected_under(members, "browser"@) {
            Some(t) => Some(t),
            None => match selected_under(members, "module"@) {
                Some(t) => Some(t),
                None => match selected_under(members, "import"@) {
                    Some(t) => Some(t),
                    None => selected_under(members, "default"@),
                },
            },
        },
        _ => None,
    }
}

/// The target of the first item from `from` on that has one.
pub open spec fn selected_from(items: Seq<JsonView>, from: int) -> Option<Seq<char>>
    decreases items, items.len() - from,
{
    if from < 0 || from >= items.len() {
        None
    } else {
        match selected(items[from]) {
            Some(t) => Some(t),
            None => selected_from(items, from + 1),
        }
    }
}

/// The target under a condition.
pub open spec fn selected_under(
    members: Seq<(Seq<char>, JsonView)>,
    condition: Seq<char>,
) -> Option<Seq<char>>
    decreases members, 1nat,
{
    match lookup(members, condition) {
        Some(node) => {
            proof {
                let i = lemma_lookup_index(members, condition);
                assert(decreases_to!(members => members[i].1));
            }
            selected(node)
        },
        None => None,
    }
}

/// Whether a segment of `path` leads up.
pub open spec fn leads_up(path: Seq<char>) -> bool {
    split_at_char(path, '/').contains(".."@)
}

/// `s` without a `./` before it.
pub open spec fn without_dot_slash(s: Seq<char>) -> Seq<char> {
    match stripped(s, "./"@) {
        Some(rest) => rest,
        None => s,
    }
}

/// The relative path of a target, which stays within the package; nothing for a target that
/// is empty or leads up.
pub open spec fn safe(s: Seq<char>) -> Option<Seq<char>> {
    let t = trimmed_start(without_dot_slash(s), '/');
    if t.len() == 0 || leads_up(t) {
        None
    } else {
        Some(t)
    }
}

/// The relative path of the target that a browser takes.
pub open spec fn safe_selected(node: JsonView) -> Option<Seq<char>> {
    match selected(node) {
        Some(t) => safe(t),
        None => None,
    }
}

/// The directory of a pattern target, before its `*`.
pub open spec fn pattern_dir(target: Seq<char>) -> Option<Seq<char>> {
    match find(target, "*"@) {
        Some(star) => {
            let before = without_dot_slash(target.take(star));
            if leads_up(before) {
                None
            } else {
                Some(trimmed_start(before, '/'))
            }
        },
        None => None,
    }
}

/// The key under which `exports` holds a subpath.
pub open spec fn subpath_key(subpath: Seq<char>) -> Seq<char> {
    if "./"@.is_prefix_of(subpath) {
        subpath
    } else {
        "./"@ + trimmed_start(subpath, '/')
    }
}

/// The text that a `browser` map puts in the place of `main`: that of the first member whose
/// key is the path `main` and whose value is a text.
pub open spec fn browser_substitute(
    members: Seq<(Seq<char>, JsonView)>,
    main: Seq<char>,
    from: int,
) -> Option<Seq<char>>
    decreases members.len() - from,
{
    if from < 0 || from >= members.len() {
        None
    } else if safe(members[from].0) == Some(main) && members[from].1.as_str() is Some {
        members[from].1.as_str()
    } else {
        browser_substitute(members, main, from + 1)
    }
}

/// The path of `main`.
pub open spec fn plain_main(raw: JsonView) -> Option<Seq<char>> {
    match raw.text("main"@) {
        Some(s) => safe(s),
        None => None,
    }
}

/// The bare entry of a manifest without usable `exports`: `module`, then `browser`, which
/// may be a text or a map that has a substitute for `main`, then `main`.
pub open spec fn main_without_exports(raw: JsonView) -> Option<Seq<char>> {
    match raw.text("module"@) {
        Some(s) => safe(s),
        None => match raw.get("browser"@) {
            Some(JsonView::Str(s)) => safe(s),
            Some(JsonView::Object(members)) => match plain_main(raw) {
                Some(main) => match browser_substitute(members, main, 0) {
                    Some(s) => safe(s),
                    None => Some(main),
                },
                None => None,
            },
            _ => plain_main(raw),
        },
    }
}

/// The bare entry of a manifest.
pub open spec fn main_of(raw: JsonView) -> Option<Seq<char>> {
    match raw.get("exports"@) {
        Some(JsonView::Str(s)) => safe(s),
        Some(JsonView::Object(members)) => if maps_subpaths(members) {
            match lookup(members, "."@) {
                Some(node) => safe_selected(node),
                None => None,
            }
        } else {
            safe_selected(JsonView::Object(members))
        },
        _ => main_without_exports(raw),
    }
}

/// What `key` is by a pattern of `exports`, with the length of the pattern before its `*`:
/// the target with what the `*` stands for in the place of every `*`.
pub open spec fn by_pattern(pattern: (Seq<char>, JsonView), key: Seq<char>) -> Option<
    (int, Seq<char>),
> {
    match find(pattern.0, "*"@) {
        Some(star) => {
            let prefix = pattern.0.take(star);
            let suffix = pattern.0.skip(star + 1);
            if key.len() >= prefix.len() + suffix.len() && prefix.is_prefix_of(key)
                && suffix.is_suffix_of(key) {
                match selected(pattern.1) {
                    Some(target) => match safe(
                        replaced(
                            target,
                            '*',
                            key.subrange(prefix.len() as int, key.len() - suffix.len()),
                        ),
                    ) {
                        Some(path) => Some((star, path)),
                        None => None,
                    },
                    None => None,
                }
            } else {
                None
            }
        },
        None => None,
    }
}

/// What `key` is by the pattern with the most before its `*`, the first of several.
pub open spec fn by_best_pattern(
    members: Seq<(Seq<char>, JsonView)>,
    key: Seq<char>,
) -> Option<(int, Seq<char>)>
    decreases members.len(),
{
    if members.len() == 0 {
        None
    } else {
        let before = by_best_pattern(members.drop_last(), key);
        match by_pattern(members.last(), key) {
            Some((n, path)) => match before {
                Some((m, _)) => if n > m {
                    Some((n, path))
                } else {
                    before
                },
                None => Some((n, path)),
            },
            None => before,
        }
    }
}

/// The path of a subpath: by the key itself, else by the best pattern.
pub open spec fn subpath_of(raw: JsonView, subpath: Seq<char>) -> Option<Seq<char>> {
    let key = subpath_key(subpath);
    match raw.members("exports"@) {
        Some(members) => if maps_subpaths(members) {
            match lookup(members, key) {
                Some(node) => safe_selected(node),
                None => match by_best_pattern(members, key) {
                    Some((_, path)) => Some(path),
                    None => None,
                },
            }
        } else {
            None
        },
        None => None,
    }
}

/// The entry of a member of an `exports` map of subpaths.
pub open spec fn entry_of() -> spec_fn((Seq<char>, JsonView)) -> Option<EntryView> {
    |m: (Seq<char>, JsonView)|
        if m.0 == "."@ {
            match safe_selected(m.1) {
                Some(t) => Some(EntryView::Bare(t)),
                None => None,
            }
        } else {
            match stripped(m.0, "./"@) {
                Some(sub) => match find(sub, "*"@) {
                    Some(star) => match selected(m.1) {
                        Some(target) => match pattern_dir(target) {
                            Some(dir) => Some(EntryView::Prefix { subpath: sub.take(star), dir }),
                            None => None,
                        },
                        None => None,
                    },
                    None => match safe_selected(m.1) {
                        Some(target) => Some(EntryView::Subpath { subpath: sub, target }),
                        None => None,
                    },
                },
                None => None,
            }
        }
}

/// The entries of a manifest.
pub open spec fn entries_of(raw: JsonView) -> Seq<EntryView> {
    match raw.get("exports"@) {
        Some(JsonView::Object(members)) => if maps_subpaths(members) {
            members.filter_map(entry_of())
        } else {
            bare_entry(raw)
        },
        _ => bare_entry(raw),
    }
}

/// The bare entry, where there is one.
pub open spec fn bare_entry(raw: JsonView) -> Seq<EntryView> {
    match main_of(raw) {
        Some(t) => seq![EntryView::Bare(t)],
        None => Seq::empty(),
    }
}

/// The path that an entry refers to.
pub open spec fn referenced_path() -> spec_fn(EntryView) -> Seq<char> {
    |e: EntryView|
        match e {
            EntryView::Bare(t) => t,
            EntryView::Subpath { subpath, target } => target,
            EntryView::Prefix { subpath, dir } => dir,
        }
}

/// A manifest, of which the browser entry points are resolved: of several conditions
/// `browser` comes first, then `module`, `import` and `default`; `node` and `require` never
/// count.
#[derive(Debug, Clone)]
pub struct PackageJson {
    raw: Json,
}

impl DeepView for PackageJson {
    type V = JsonView;

    closed spec fn deep_view(&self) -> JsonView {
        self.raw.deep_view()
    }
}

impl License for PackageJson {
    open spec fn declared_license(&self) -> Option<Seq<char>> {
        license_in(self.deep_view())
    }

    fn license(&self) -> (r: Option<String>) {
        normalize_license(&self.raw)
    }
}

impl PackageJson {
    /// Reads a manifest.
    pub fn from_json(s: &str) -> (r: Result<PackageJson, String>)
        ensures
            match r {
                Ok(manifest) => crate::json::reads_as(s@, manifest.deep_view()) && distinct_keys(
                    manifest.deep_view(),
                ),
                Err(message) => crate::json::json_reading(s@) == Err::<JsonView, Seq<char>>(
                    message@,
                ),
            },
    {
        match Json::parse(s) {
            Ok(raw) => Ok(PackageJson { raw }),
            Err(message) => Err(message),
        }
    }

    /// The manifest that a document is.
    pub fn from_value(raw: Json) -> (r: PackageJson)
        ensures
            r.deep_view() == raw.deep_view(),
    {
        PackageJson { raw }
    }

    /// The `name`.
    pub fn name(&self) -> (r: Option<&str>)
        ensures
            r.deep_view() == self.deep_view().text("name"@),
    {
        self.raw.text("name")
    }

    /// The `version`.
    pub fn version(&self) -> (r: Option<&str>)
        ensures
            r.deep_view() == self.deep_view().text("version"@),
    {
        self.raw.text("version")
    }

    /// The `type`: a module where it says so, else CommonJS.
    pub fn package_type(&self) -> (r: PackageType)
        ensures
            r == (if self.deep_view().text("type"@) == Some("module"@) {
                PackageType::Module
            } else {
                PackageType::CommonJs
            }),
    {
        match self.raw.text("type") {
            Some(t) => {
                if same(t, "module") {
                    PackageType::Module
                } else {
                    PackageType::CommonJs
                }
            },
            None => PackageType::CommonJs,
        }
    }

    /// The path of the bare entry.
    pub fn resolve_main(&self) -> (r: Option<String>)
        ensures
            r.deep_view() == main_of(self.deep_view()),
    {
        broadcast use {crate::json::lemma_array_view, crate::json::lemma_object_view};

        match self.raw.get("exports") {
            Some(exports) => {
                match exports {
                    Json::Str(s) => {
                        return safe_target(s.as_str());
                    },
                    Json::Object(members) => {
                        return if is_subpath_map(members) {
                            match lookup_member(members, ".") {
                                Some(node) => select_target(node),
                                None => None,
                            }
                        } else {
                            select_target(exports)
                        };
                    },
                    _ => {},
                }
            },
            None => {},
        }
        self.fallback_main()
    }

    /// The path of the bare entry where there are no usable `exports`.
    fn fallback_main(&self) -> (r: Option<String>)
        ensures
            r.deep_view() == main_without_exports(self.deep_view()),
    {
        broadcast use {crate::json::lemma_array_view, crate::json::lemma_object_view};

        if let Some(s) = self.raw.text("module") {
            return safe_target(s);
        }
        let main: Option<String> = match self.raw.text("main") {
            Some(s) => safe_target(s),
            None => None,
        };
        match self.raw.get("browser") {
            Some(Json::Str(s)) => safe_target(s.as_str()),
            Some(Json::Object(members)) => {
                match main {
                    Some(path) => {
                        match substitute_in(members, path.as_str()) {
                            Some(s) => safe_target(s.as_str()),
                            None => Some(path),
                        }
                    },
                    None => None,
                }
            },
            _ => main,
        }
    }

    /// The path of a subpath, with or without its `./`: by the key itself, else by the
    /// pattern that has the most before its `*`.
    pub fn resolve_subpath(&self, subpath: &str) -> (r: Option<String>)
        ensures
            r.deep_view() == subpath_of(self.deep_view(), subpath@),
    {
        let key = normalize_subpath_key(subpath);
        match self.raw.members("exports") {
            Some(members) => {
                if !is_subpath_map(members) {
                    return None;
                }
                match lookup_member(members, key.as_str()) {
                    Some(node) => select_target(node),
                    None => best_match(members, key.as_str()),
                }
            },
            None => None,
        }
    }

    /// The entries for an import map: the bare entry, the subpaths, and the patterns.
    pub fn entries(&self) -> (r: Vec<Entry>)
        ensures
            r.deep_view() == entries_of(self.deep_view()),
    {
        broadcast use {crate::json::lemma_array_view, crate::json::lemma_object_view};

        let mut entries: Vec<Entry> = Vec::new();
        match self.raw.get("exports") {
            Some(Json::Object(members)) => {
                if is_subpath_map(members) {
                    return entries_in(members);
                }
            },
            _ => {},
        }
        match self.resolve_main() {
            Some(t) => {
                let ghost path = t@;
                entries.push(Entry::Bare(t));
                assert(entries.deep_view() =~= seq![EntryView::Bare(path)]);
            },
            None => {
                assert(entries.deep_view() =~= Seq::<EntryView>::empty());
            },
        }
        entries
    }

    /// Every relative path that the entries refer to.
    pub fn referenced_paths(&self) -> (r: Vec<String>)
        ensures
            r.deep_view() == entries_of(self.deep_view()).map_values(referenced_path()),
    {
        let entries = self.entries();
        let ghost all = entries.deep_view();
        let mut out: Vec<String> = Vec::new();
        let mut i: usize = 0;
        while i < entries.len()
            invariant
                i <= entries.len(),
                all == entries.deep_view(),
                out.deep_view() =~= all.take(i as int).map_values(referenced_path()),
            decreases entries.len() - i,
        {
            let ghost done = out.deep_view();
            let path = match &entries[i] {
                Entry::Bare(t) => t.clone(),
                Entry::Subpath { subpath, target } => target.clone(),
                Entry::Prefix { subpath, dir } => dir.clone(),
            };
            let ghost v = path@;
            out.push(path);
            proof {
                assert(v == referenced_path()(all[i as int]));
                assert(out.deep_view() =~= done.push(v));
            }
            i += 1;
        }
        assert(all.take(all.len() as int) =~= all);
        out
    }
}

/// Whether an `exports` object maps subpaths and not conditions.
fn is_subpath_map(members: &Vec<(String, Json)>) -> (r: bool)
    ensures
        r == maps_subpaths(members.deep_view()),
{
    let ghost all = members.deep_view();
    let mut i: usize = 0;
    while i < members.len()
        invariant
            i <= members.len(),
            all == members.deep_view(),
            forall|j: int| 0 <= j < i ==> !"."@.is_prefix_of((#[trigger] all[j]).0),
        decreases members.len() - i,
    {
        if starts_with(members[i].0.as_str(), ".") {
            assert("."@.is_prefix_of(all[i as int].0));
            return true;
        }
        i += 1;
    }
    false
}

/// The target that a browser takes.
fn select_condition(node: &Json) -> (r: Option<String>)
    ensures
        r.deep_view() == selected(node.deep_view()),
    decreases node, 1nat,
{
    broadcast use {crate::json::lemma_array_view, crate::json::lemma_object_view};

    match node {
        Json::Str(s) => Some(s.clone()),
        Json::Array(items) => {
            let ghost all = items.deep_view();
            let mut i: usize = 0;
            while i < items.len()
                invariant
                    i <= items.len(),
                    all == items.deep_view(),
                    *node == Json::Array(*items),
                    selected_from(all, 0) == selected_from(all, i as int),
                    selected(node.deep_view()) == selected_from(all, 0),
                decreases items.len() - i,
            {
                assert(decreases_to!(*node => node->Array_0@[i as int]));
                if let Some(t) = select_condition(&items[i]) {
                    return Some(t);
                }
                i += 1;
            }
            None
        },
        Json::Object(members) => {
            if let Some(t) = condition_target(node, "browser") {
                return Some(t);
            }
            if let Some(t) = condition_target(node, "module") {
                return Some(t);
            }
            if let Some(t) = condition_target(node, "import") {
                return Some(t);
            }
            condition_target(node, "default")
        },
        _ => None,
    }
}

/// The target under a condition of an object.
fn condition_target(node: &Json, condition: &str) -> (r: Option<String>)
    requires
        node is Object,
    ensures
        r.deep_view() == selected_under(node.deep_view()->Object_0, condition@),
    decreases node, 0nat,
{
    broadcast use {crate::json::lemma_array_view, crate::json::lemma_object_view};

    match node {
        Json::Object(members) => {
            match lookup_member(members, condition) {
                Some(inner) => {
                    proof {
                        let i = choose|i: int|
                            0 <= i < members@.len() && (#[trigger] members@[i]).1 == *inner;
                        assert(decreases_to!(*node => node->Object_0@[i].1));
                    }
                    select_condition(inner)
                },
                None => None,
            }
        },
        _ => None,
    }
}

/// The relative path of the target that a browser takes.
fn select_target(node: &Json) -> (r: Option<String>)
    ensures
        r.deep_view() == safe_selected(node.deep_view()),
{
    match select_condition(node) {
        Some(t) => safe_target(t.as_str()),
        None => None,
    }
}

/// `s` without a `./` before it.
fn strip_dot_slash(s: &str) -> (r: String)
    ensures
        r@ == without_dot_slash(s@),
{
    match strip_prefix(s, "./") {
        Some(rest) => rest,
        None => s.to_owned(),
    }
}

/// The relative path of a target, which stays within the package.
fn safe_target(s: &str) -> (r: Option<String>)
    ensures
        r.deep_view() == safe(s@),
{
    let t = trim_start(strip_dot_slash(s).as_str(), '/');
    if t.unicode_len() == 0 || any_is(&split_char(t.as_str(), '/'), "..") {
        return None;
    }
    Some(t)
}

/// The key under which `exports` holds a subpath.
fn normalize_subpath_key(subpath: &str) -> (r: String)
    ensures
        r@ == subpath_key(subpath@),
{
    if starts_with(subpath, "./") {
        subpath.to_owned()
    } else {
        crate::text::joined("./", trim_start(subpath, '/').as_str())
    }
}

/// The directory of a pattern target, before its `*`.
fn target_dir(target: &str) -> (r: Option<String>)
    ensures
        r.deep_view() == pattern_dir(target@),
{
    match split_once(target, "*") {
        Some((head, _)) => {
            let before = strip_dot_slash(head.as_str());
            if any_is(&split_char(before.as_str(), '/'), "..") {
                return None;
            }
            Some(trim_start(before.as_str(), '/'))
        },
        None => None,
    }
}

/// The text that a `browser` map puts in the place of `main`.
fn substitute_in(members: &Vec<(String, Json)>, main: &str) -> (r: Option<String>)
    ensures
        r.deep_view() == browser_substitute(members.deep_view(), main@, 0),
{
    let ghost all = members.deep_view();
    let mut i: usize = 0;
    while i < members.len()
        invariant
            i <= members.len(),
            all == members.deep_view(),
            browser_substitute(all, main@, 0) == browser_substitute(all, main@, i as int),
        decreases members.len() - i,
    {
        assert(all[i as int] == (members@[i as int].0@, members@[i as int].1.deep_view()));
        let is_main = match safe_target(members[i].0.as_str()) {
            Some(path) => same(path.as_str(), main),
            None => false,
        };
        if is_main {
            if let Some(s) = members[i].1.as_str() {
                return Some(s.to_owned());
            }
        }
        i += 1;
    }
    None
}

/// What `key` is by a pattern of `exports`, with the length of the pattern before its `*`.
fn match_pattern(pattern: &str, node: &Json, key: &str) -> (r: Option<(usize, String)>)
    ensures
        match r {
            Some((n, path)) => by_pattern((pattern@, node.deep_view()), key@) == Some(
                (n as int, path@),
            ),
            None => by_pattern((pattern@, node.deep_view()), key@) is None,
        },
{
    let chars = crate::text::chars_of(pattern);
    let star_text = crate::text::chars_of("*");
    proof {
        reveal_strlit("*");
    }
    match find_in(&chars, &star_text) {
        Some(star) => {
            let end: usize = chars.len();
            let prefix = text_between(&chars, 0, star);
            let suffix = text_between(&chars, star + 1, end);
            assert(prefix@ =~= pattern@.take(star as int));
            assert(suffix@ =~= pattern@.skip(star + 1));
            let full = crate::text::chars_of(key);
            let suffix_len: usize = end - star - 1;
            if full.len() >= star && full.len() - star >= suffix_len && starts_with(
                key,
                prefix.as_str(),
            ) && ends_with(key, suffix.as_str()) {
                let matched = text_between(&full, star, full.len() - suffix_len);
                match select_condition(node) {
                    Some(target) => {
                        let filled = replace_char(target.as_str(), '*', matched.as_str());
                        match safe_target(filled.as_str()) {
                            Some(path) => Some((star, path)),
                            None => None,
                        }
                    },
                    None => None,
                }
            } else {
                None
            }
        },
        None => None,
    }
}

/// What `key` is by the pattern with the most before its `*`.
fn best_match(members: &Vec<(String, Json)>, key: &str) -> (r: Option<String>)
    ensures
        r.deep_view() == (match by_best_pattern(members.deep_view(), key@) {
            Some((_, path)) => Some(path),
            None => None,
        }),
{
    let ghost all = members.deep_view();
    let mut best: Option<(usize, String)> = None;
    let mut i: usize = 0;
    while i < members.len()
        invariant
            i <= members.len(),
            all == members.deep_view(),
            by_best_pattern(all.take(i as int), key@) == (match best {
                Some((n, path)) => Some((n as int, path@)),
                None => None,
            }),
        decreases members.len() - i,
    {
        proof {
            assert(all.take(i + 1).drop_last() =~= all.take(i as int));
            assert(all[i as int] == (members@[i as int].0@, members@[i as int].1.deep_view()));
        }
        if let Some((n, path)) = match_pattern(members[i].0.as_str(), &members[i].1, key) {
            let better = match &best {
                Some((m, _)) => n > *m,
                None => true,
            };
            if better {
                best = Some((n, path));
            }
        }
        i += 1;
    }
    assert(all.take(all.len() as int) =~= all);
    match best {
        Some((_, path)) => Some(path),
        None => None,
    }
}

/// The entry of a member of an `exports` map of subpaths.
fn member_entry(key: &str, node: &Json) -> (r: Option<Entry>)
    ensures
        r.deep_view() == entry_of()((key@, node.deep_view())),
{
    if same(key, ".") {
        return match select_target(node) {
            Some(t) => Some(Entry::Bare(t)),
            None => None,
        };
    }
    match strip_prefix(key, "./") {
        Some(sub) => {
            match split_once(sub.as_str(), "*") {
                Some((head, _)) => {
                    match select_condition(node) {
                        Some(target) => match target_dir(target.as_str()) {
                            Some(dir) => Some(Entry::Prefix { subpath: head, dir }),
                            None => None,
                        },
                        None => None,
                    }
                },
                None => match select_target(node) {
                    Some(target) => Some(Entry::Subpath { subpath: sub, target }),
                    None => None,
                },
            }
        },
        None => None,
    }
}

/// The entries of an `exports` map of subpaths.
fn entries_in(members: &Vec<(String, Json)>) -> (r: Vec<Entry>)
    ensures
        r.deep_view() == members.deep_view().filter_map(entry_of()),
{
    let ghost all = members.deep_view();
    let mut out: Vec<Entry> = Vec::new();
    let mut i: usize = 0;
    assert(out.deep_view() =~= all.take(0).filter_map(entry_of())) by {
        reveal(Seq::filter_map);
    }
    while i < members.len()
        invariant
            i <= members.len(),
            all == members.deep_view(),
            out.deep_view() == all.take(i as int).filter_map(entry_of()),
        decreases members.len() - i,
    {
        let ghost done = out.deep_view();
        proof {
            all.lemma_filter_map_take_succ(entry_of(), i as int);
            assert(all[i as int] == (members@[i as int].0@, members@[i as int].1.deep_view()));
        }
        if let Some(e) = member_entry(members[i].0.as_str(), &members[i].1) {
            let ghost v = e.deep_view();
            out.push(e);
            assert(out.deep_view() =~= done + seq![v]);
        }
        i += 1;
    }
    assert(all.take(all.len() as int) =~= all);
    out
}

/// Whether a relative path stays within the directory that it starts from: no segment leads
/// up, and it does not start at the root.
pub open spec fn stays_inside(path: Seq<char>) -> bool {
    !leads_up(path) && (path.len() > 0 ==> path[0] != '/')
}

proof fn lemma_safe(s: Seq<char>)
    ensures
        safe(s) matches Some(t) ==> stays_inside(t) && t.len() > 0,
{
    crate::text::lemma_trimmed_start_first(without_dot_slash(s), '/');
}

proof fn lemma_pattern_dir(target: Seq<char>)
    ensures
        pattern_dir(target) matches Some(dir) ==> stays_inside(dir),
{
    if let Some(star) = find(target, "*"@) {
        let before = without_dot_slash(target.take(star));
        crate::text::lemma_trimmed_start_first(before, '/');
        if leads_up(trimmed_start(before, '/')) {
            crate::text::lemma_split_trimmed_start(before, '/', ".."@);
        }
    }
}

proof fn lemma_best_is_safe(members: Seq<(Seq<char>, JsonView)>, key: Seq<char>)
    ensures
        by_best_pattern(members, key) matches Some((_, path)) ==> stays_inside(path) && path.len()
            > 0,
    decreases members.len(),
{
    if members.len() > 0 {
        lemma_best_is_safe(members.drop_last(), key);
        let pattern = members.last();
        if let Some(star) = find(pattern.0, "*"@) {
            if let Some(target) = selected(pattern.1) {
                let suffix = pattern.0.skip(star + 1);
                lemma_safe(
                    replaced(
                        target,
                        '*',
                        key.subrange(
                            pattern.0.take(star).len() as int,
                            key.len() - suffix.len(),
                        ),
                    ),
                );
            }
        }
    }
}

/// Whatever a manifest says, the paths that it resolves to stay within the package.
pub proof fn resolved_paths_stay_inside(raw: JsonView, subpath: Seq<char>)
    ensures
        main_of(raw) matches Some(t) ==> stays_inside(t) && t.len() > 0,
        subpath_of(raw, subpath) matches Some(t) ==> stays_inside(t) && t.len() > 0,
        forall|i: int|
            0 <= i < entries_of(raw).len() ==> stays_inside(
                referenced_path()(#[trigger] entries_of(raw)[i]),
            ),
{
    assert forall|s: Seq<char>| (#[trigger] safe(s)) is Some implies stays_inside(safe(s)->Some_0)
        && safe(s)->Some_0.len() > 0 by {
        lemma_safe(s);
    }
    if let Some(members) = raw.members("exports"@) {
        lemma_best_is_safe(members, subpath_key(subpath));
    }
    match raw.get("exports"@) {
        Some(JsonView::Object(members)) => {
            if maps_subpaths(members) {
                let entries = members.filter_map(entry_of());
                assert forall|i: int| 0 <= i < entries.len() implies stays_inside(
                    referenced_path()(#[trigger] entries[i]),
                ) by {
                    members.lemma_filter_map_contains(entry_of(), entries[i]);
                    let m = choose|m: (Seq<char>, JsonView)|
                        members.contains(m) && entry_of()(m) == Some(entries[i]);
                    if let Some(target) = selected(m.1) {
                        lemma_pattern_dir(target);
                    }
                }
            }
        },
        _ => {},
    }
}

/// The pattern that resolves a subpath has the most before its `*` of all that match it.
pub proof fn best_pattern_is_longest(
    members: Seq<(Seq<char>, JsonView)>,
    key: Seq<char>,
    i: int,
)
    requires
        0 <= i < members.len(),
        by_pattern(members[i], key) is Some,
    ensures
        by_best_pattern(members, key) is Some,
        by_pattern(members[i], key)->Some_0.0 <= by_best_pattern(members, key)->Some_0.0,
    decreases members.len(),
{
    if i < members.len() - 1 {
        best_pattern_is_longest(members.drop_last(), key, i);
    }
}

/// What stands under `node` or `require` never counts.
pub proof fn node_conditions_never_count(members: Seq<(Seq<char>, JsonView)>, node: JsonView)
    ensures
        selected(JsonView::Object(crate::json::with_member(members, "node"@, node))) == selected(
            JsonView::Object(members),
        ),
        selected(JsonView::Object(crate::json::with_member(members, "require"@, node)))
            == selected(JsonView::Object(members)),
{
    reveal_strlit("node");
    reveal_strlit("require");
    reveal_strlit("browser");
    reveal_strlit("module");
    reveal_strlit("import");
    reveal_strlit("default");
    assert("node"@.len() == 4 && "require"@.len() == 7 && "browser"@.len() == 7);
    assert("module"@.len() == 6 && "import"@.len() == 6 && "default"@.len() == 7);
    assert("require"@[0] == 'r' && "browser"@[0] == 'b' && "default"@[0] == 'd');
    crate::json::lemma_with_member(members, "node"@, node, "browser"@);
    crate::json::lemma_with_member(members, "node"@, node, "module"@);
    crate::json::lemma_with_member(members, "node"@, node, "import"@);
    crate::json::lemma_with_member(members, "node"@, node, "default"@);
    crate::json::lemma_with_member(members, "require"@, node, "browser"@);
    crate::json::lemma_with_member(members, "require"@, node, "module"@);
    crate::json::lemma_with_member(members, "require"@, node, "import"@);
    crate::json::lemma_with_member(members, "require"@, node, "default"@);
    reveal_with_fuel(selected_under, 2);
}

/// In a manifest that was read every key of `exports` counts once, so that its entries agree
/// with what is resolved.
pub proof fn a_read_manifest_has_distinct_exports(raw: JsonView)
    requires
        distinct_keys(raw),
    ensures
        raw.members("exports"@) matches Some(members) ==> distinct_members(members),
{
    if let JsonView::Object(fields) = raw {
        if lookup(fields, "exports"@) is Some {
            let i = lemma_lookup_index(fields, "exports"@);
            assert(distinct_keys(fields[i].1));
        }
    }
}

/// The entries agree with what is resolved. There is a bare entry where the bare entry resolves,
/// one at most, and it leads there; every subpath that is listed resolves to its target, and no
/// subpath is listed twice. Every key of `exports` counts once.
pub proof fn entries_agree_with_resolution(raw: JsonView)
    requires
        raw.members("exports"@) matches Some(members) ==> distinct_members(members),
    ensures
        forall|t: Seq<char>| #[trigger]
            entries_of(raw).contains(EntryView::Bare(t)) <==> main_of(raw) == Some(t),
        forall|i: int, j: int|
            0 <= i < j < entries_of(raw).len() ==> !(#[trigger] entries_of(raw)[i] is Bare
                && #[trigger] entries_of(raw)[j] is Bare),
        forall|i: int|
            0 <= i < entries_of(raw).len() ==> (#[trigger] entries_of(raw)[i] matches
                EntryView::Subpath { subpath, target } ==> subpath_of(raw, "./"@ + subpath) == Some(
                target,
            )),
        forall|i: int, j: int|
            0 <= i < j < entries_of(raw).len() && #[trigger] entries_of(raw)[i] is Subpath
                && #[trigger] entries_of(raw)[j] is Subpath ==> entries_of(raw)[i]->Subpath_subpath
                != entries_of(raw)[j]->Subpath_subpath,
{
    let entries = entries_of(raw);
    let f = entry_of();
    let listing = match raw.get("exports"@) {
        Some(JsonView::Object(members)) => maps_subpaths(members),
        _ => false,
    };
    if listing {
        let members = raw.members("exports"@)->Some_0;
        assert(raw.get("exports"@) == Some(JsonView::Object(members)));
        assert(entries == members.filter_map(f));
        assert forall|t: Seq<char>| #[trigger] entries.contains(EntryView::Bare(t)) <==> main_of(raw)
            == Some(t) by {
            if entries.contains(EntryView::Bare(t)) {
                members.lemma_filter_map_contains(f, EntryView::Bare(t));
                let m = choose|m: (Seq<char>, JsonView)|
                    members.contains(m) && f(m) == Some(EntryView::Bare(t));
                let k = choose|k: int| 0 <= k < members.len() && members[k] == m;
                lemma_distinct_lookup(members, k);
            }
            if main_of(raw) == Some(t) {
                let k = lemma_lookup_index(members, "."@);
                assert(f(members[k]) == Some(EntryView::Bare(t)));
                lemma_mapped(members, f, k);
            }
        }
        assert forall|i: int, j: int| 0 <= i < j < entries.len() implies !(#[trigger] entries[i]
            is Bare && #[trigger] entries[j] is Bare) by {
            let (k, l) = lemma_mapped_in_order(members, f, i, j);
            assert(members[k].0 != members[l].0);
        }
        assert forall|i: int| 0 <= i < entries.len() implies (#[trigger] entries[i] matches
            EntryView::Subpath { subpath, target } ==> subpath_of(raw, "./"@ + subpath) == Some(
            target,
        )) by {
            assert(entries.contains(entries[i]));
            members.lemma_filter_map_contains(f, entries[i]);
            let m = choose|m: (Seq<char>, JsonView)|
                members.contains(m) && f(m) == Some(entries[i]);
            let k = choose|k: int| 0 <= k < members.len() && members[k] == m;
            lemma_distinct_lookup(members, k);
            if let EntryView::Subpath { subpath, target } = entries[i] {
                lemma_stripped_again(m.0, "./"@);
                assert(m.0 == "./"@ + subpath);
                assert("./"@.is_prefix_of(m.0));
            }
        }
        assert forall|i: int, j: int|
            0 <= i < j < entries.len() && #[trigger] entries[i] is Subpath && #[trigger] entries[j]
                is Subpath implies entries[i]->Subpath_subpath != entries[j]->Subpath_subpath by {
            let (k, l) = lemma_mapped_in_order(members, f, i, j);
            assert(members[k].0 != members[l].0);
            lemma_stripped_again(members[k].0, "./"@);
            lemma_stripped_again(members[l].0, "./"@);
        }
    } else {
        assert(entries == bare_entry(raw));
        assert forall|t: Seq<char>| #[trigger] entries.contains(EntryView::Bare(t)) <==> main_of(raw)
            == Some(t) by {
            if main_of(raw) == Some(t) {
                assert(entries[0] == EntryView::Bare(t));
            }
        }
    }
}

/// A text is what is stripped of it with what is left behind it.
proof fn lemma_stripped_again(s: Seq<char>, prefix: Seq<char>)
    ensures
        stripped(s, prefix) matches Some(rest) ==> s == prefix + rest,
{
    if let Some(rest) = stripped(s, prefix) {
        assert(s =~= prefix + rest);
    }
}

} // verus!
