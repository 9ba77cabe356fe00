//! Bills of materials and license overviews of the packages that a lockfile pins: a plain
//! summary, a CycloneDX 1.6 document and an SPDX 2.3 document.

use crate::integrity::{base64_reading, decode_base64};
use crate::json::{
    add_item, array, array_of, distinct_members, is_tidy, no_items, no_members, object, object_of,
    optional_member, pretty_text, put, reads_as, Json, JsonView, Number, NumberView,
};
use crate::package_json::lock::{is_package, LockedView, Lockfile};
use crate::sort::{
    is_sorted, lemma_same_values, sort_set, sort_stable, sorting_is_stable, stable_sort, Sortable,
};
use crate::text::{
    at_most, chars_of, contains, copy_opt, decimal, decimal_of, digit, digit_char, holds, joined,
    joined3, same, starts_with, strip_prefix, stripped, text_leq,
};
use vstd::prelude::*;
use vstd::string::*;

verus! {

/// What stands for a license or a value that nothing is asserted of.
pub const NOASSERTION: &'static str = "NOASSERTION";

/// The name of this tool.
pub const TOOL_NAME: &'static str = "npm-utils";

/// The version of this tool.
pub const TOOL_VERSION: &'static str = "0.5.0";

/// One package of a bill of materials.
#[derive(Debug, Clone, PartialEq, Eq)]
pub struct Component {
    /// The package name, with its scope.
    pub name: String,
    /// The exact version.
    pub version: String,
    /// The package URL.
    pub purl: String,
    /// The declared license.
    pub license: Option<String>,
    /// Where the package is downloaded from.
    pub resolved: Option<String>,
    /// The `sha512-<base64>` integrity.
    pub integrity: Option<String>,
}

/// What a [`Component`] holds.
#[verifier::ext_equal]
pub struct ComponentView {
    pub name: Seq<char>,
    pub version: Seq<char>,
    pub purl: Seq<char>,
    pub license: Option<Seq<char>>,
    pub resolved: Option<Seq<char>>,
    pub integrity: Option<Seq<char>>,
}

impl DeepView for Component {
    type V = ComponentView;

    open spec fn deep_view(&self) -> ComponentView {
        ComponentView {
            name: self.name@,
            version: self.version@,
            purl: self.purl@,
            license: self.license.deep_view(),
            resolved: self.resolved.deep_view(),
            integrity: self.integrity.deep_view(),
        }
    }
}

impl Component {
    /// The same component again.
    pub fn copy(&self) -> (r: Component)
        ensures
            r.deep_view() == self.deep_view(),
    {
        Component {
            name: self.name.clone(),
            version: self.version.clone(),
            purl: self.purl.clone(),
            license: copy_opt(&self.license),
            resolved: copy_opt(&self.resolved),
            integrity: copy_opt(&self.integrity),
        }
    }
}

impl Sortable for Component {
    open spec fn leq(a: ComponentView, b: ComponentView) -> bool {
        if a.name == b.name {
            text_leq(a.version, b.version)
        } else {
            text_leq(a.name, b.name)
        }
    }

    proof fn leq_total(a: ComponentView, b: ComponentView) {
        crate::text::lemma_text_total(a.name, b.name);
        crate::text::lemma_text_total(a.version, b.version);
    }

    proof fn leq_transitive(a: ComponentView, b: ComponentView, c: ComponentView) {
        if a.name == b.name && b.name == c.name {
            crate::text::lemma_text_transitive(a.version, b.version, c.version);
        } else if a.name != b.name && b.name != c.name {
            crate::text::lemma_text_transitive(a.name, b.name, c.name);
            if a.name == c.name {
                crate::text::lemma_text_antisymmetric(a.name, b.name);
            }
        }
    }

    fn may_precede(&self, other: &Component) -> (r: bool) {
        if self.name == other.name {
            at_most(self.version.as_str(), other.version.as_str())
        } else {
            at_most(self.name.as_str(), other.name.as_str())
        }
    }
}

/// The package URL of a package; the `@` of a scope is written `%40`.
pub open spec fn purl_of(name: Seq<char>, version: Seq<char>) -> Seq<char> {
    let path = match stripped(name, "@"@) {
        Some(rest) => "%40"@ + rest,
        None => name,
    };
    "pkg:npm/"@ + path + "@"@ + version
}

/// The component of an entry of a lockfile.
pub open spec fn component_of() -> spec_fn(LockedView) -> ComponentView {
    |p: LockedView|
        ComponentView {
            name: p.name,
            version: p.version,
            purl: purl_of(p.name, p.version),
            license: p.license,
            resolved: p.resolved,
            integrity: p.integrity,
        }
}

/// The packages among the entries of a lockfile.
pub open spec fn packages_only() -> spec_fn(LockedView) -> bool {
    |p: LockedView| is_package(p)
}

/// The components of the packages that a lockfile pins, by name and then version.
pub open spec fn components_of(packages: Seq<LockedView>) -> Seq<ComponentView> {
    stable_sort::<Component>(packages.filter(packages_only()).map_values(component_of()))
}

/// The package URL of a package.
fn npm_purl(name: &str, version: &str) -> (r: String)
    ensures
        r@ == purl_of(name@, version@),
{
    let path = match strip_prefix(name, "@") {
        Some(rest) => joined("%40", rest.as_str()),
        None => name.to_owned(),
    };
    let mut out = joined3("pkg:npm/", path.as_str(), "@");
    out.append(version);
    out
}

/// The packages that a lockfile pins, by name and then version. The root entry and links
/// are left out: a link is a local path and no package that is distributed.
pub fn components(lock: &Lockfile) -> (r: Vec<Component>)
    ensures
        r.deep_view() == components_of(lock.deep_view().packages),
{
    let ghost all = lock.packages.deep_view();
    let mut out: Vec<Component> = Vec::new();
    let mut i: usize = 0;
    assert(out.deep_view() =~= all.take(0).filter(packages_only()).map_values(component_of())) by {
        reveal(Seq::filter);
    }
    while i < lock.packages.len()
        invariant
            i <= lock.packages.len(),
            all == lock.packages.deep_view(),
            out.deep_view() == all.take(i as int).filter(packages_only()).map_values(
                component_of(),
            ),
        decreases lock.packages.len() - i,
    {
        let ghost done = out.deep_view();
        let p = &lock.packages[i];
        proof {
            assert(all.take(i + 1) =~= all.take(i as int).push(all[i as int]));
            all.take(i as int).lemma_filter_push(all[i as int], packages_only());
        }
        if starts_with(p.key.as_str(), "node_modules/") && !p.link {
            let c = Component {
                purl: npm_purl(p.name.as_str(), p.version.as_str()),
                name: p.name.clone(),
                version: p.version.clone(),
                license: copy_opt(&p.license),
                resolved: copy_opt(&p.resolved),
                integrity: copy_opt(&p.integrity),
            };
            let ghost v = c.deep_view();
            out.push(c);
            proof {
                let kept = all.take(i as int).filter(packages_only());
                assert(v == component_of()(all[i as int]));
                assert(out.deep_view() =~= done.push(v));
                assert(kept.push(all[i as int]).map_values(component_of()) =~= done.push(v));
            }
        }
        i += 1;
    }
    assert(all.take(all.len() as int) =~= all);
    sort_stable(out)
}

/// The license under which a component is listed.
pub open spec fn license_key(c: ComponentView) -> Seq<char> {
    match c.license {
        Some(license) => license,
        None => NOASSERTION@,
    }
}

/// How a component is listed: `name@version`.
pub open spec fn label_of() -> spec_fn(ComponentView) -> Seq<char> {
    |c: ComponentView| c.name + "@"@ + c.version
}

/// The components that are listed under `license`.
pub open spec fn listed_under(license: Seq<char>) -> spec_fn(ComponentView) -> bool {
    |c: ComponentView| license_key(c) == license
}

/// The labels of the components under `license`, in order.
pub open spec fn labels_under(components: Seq<ComponentView>, license: Seq<char>) -> Seq<
    Seq<char>,
> {
    stable_sort::<String>(components.filter(listed_under(license)).map_values(label_of()))
}

/// Whether some component is listed under `license`.
#[verifier::opaque]
pub open spec fn is_declared(components: Seq<ComponentView>, license: Seq<char>) -> bool {
    exists|k: int| 0 <= k < components.len() && license_key(#[trigger] components[k]) == license
}

/// Whether some group has `license`.
#[verifier::opaque]
pub open spec fn is_listed(groups: Seq<(Seq<char>, Seq<Seq<char>>)>, license: Seq<char>) -> bool {
    exists|i: int| 0 <= i < groups.len() && (#[trigger] groups[i]).0 == license
}

/// Whether `groups` lists the components by license: the licenses stand in order and each
/// once, they are those of the components, and under each stand the labels of its
/// components in order.
pub open spec fn is_summary(
    components: Seq<ComponentView>,
    groups: Seq<(Seq<char>, Seq<Seq<char>>)>,
) -> bool {
    &&& forall|i: int, j: int|
        0 <= i < j < groups.len() ==> text_leq(#[trigger] groups[i].0, #[trigger] groups[j].0)
            && groups[i].0 != groups[j].0
    &&& forall|i: int|
        0 <= i < groups.len() ==> (#[trigger] groups[i]).1 == labels_under(
            components,
            groups[i].0,
        )
    &&& forall|license: Seq<char>| #[trigger]
        is_listed(groups, license) == is_declared(components, license)
}

/// The components of a bill of materials by their licenses.
#[derive(Debug, PartialEq, Eq)]
pub struct LicenseGroups {
    groups: Vec<(String, Vec<String>)>,
}

impl DeepView for LicenseGroups {
    type V = Seq<(Seq<char>, Seq<Seq<char>>)>;

    closed spec fn deep_view(&self) -> Seq<(Seq<char>, Seq<Seq<char>>)> {
        self.groups.deep_view()
    }
}

/// The labels in the first group with this license.
pub open spec fn group_of(
    groups: Seq<(Seq<char>, Seq<Seq<char>>)>,
    license: Seq<char>,
) -> Option<Seq<Seq<char>>>
    decreases groups.len(),
{
    if groups.len() == 0 {
        None
    } else if groups[0].0 == license {
        Some(groups[0].1)
    } else {
        group_of(groups.drop_first(), license)
    }
}

impl LicenseGroups {
    /// How many licenses there are.
    pub fn len(&self) -> (r: usize)
        ensures
            r == self.deep_view().len(),
    {
        self.groups.len()
    }

    /// The license of the group `i`.
    pub fn license(&self, i: usize) -> (r: &String)
        requires
            i < self.deep_view().len(),
        ensures
            r@ == self.deep_view()[i as int].0,
    {
        &self.groups[i].0
    }

    /// The labels of the group `i`.
    pub fn labels(&self, i: usize) -> (r: &Vec<String>)
        requires
            i < self.deep_view().len(),
        ensures
            r.deep_view() == self.deep_view()[i as int].1,
    {
        &self.groups[i].1
    }

    /// The labels of the components under `license`.
    pub fn get(&self, license: &str) -> (r: Option<&Vec<String>>)
        ensures
            r.deep_view() == group_of(self.deep_view(), license@),
    {
        let ghost all = self.groups.deep_view();
        let mut i: usize = 0;
        assert(all.skip(0) =~= all);
        while i < self.groups.len()
            invariant
                i <= self.groups.len(),
                all == self.groups.deep_view(),
                group_of(all, license@) == group_of(all.skip(i as int), license@),
            decreases self.groups.len() - i,
        {
            assert(all.skip(i as int).drop_first() =~= all.skip(i + 1));
            if same(self.groups[i].0.as_str(), license) {
                return Some(&self.groups[i].1);
            }
            i += 1;
        }
        None
    }
}

/// The license under which a component is listed.
fn key_of(c: &Component) -> (r: String)
    ensures
        r@ == license_key(c.deep_view()),
{
    match &c.license {
        Some(license) => license.clone(),
        None => NOASSERTION.to_owned(),
    }
}

/// The licenses of the components, as they come.
fn keys_of(components: &[Component]) -> (r: Vec<String>)
    ensures
        r@.len() == components@.len(),
        forall|i: int|
            0 <= i < components@.len() ==> #[trigger] r.deep_view()[i] == license_key(
                components.deep_view()[i],
            ),
{
    let mut keys: Vec<String> = Vec::new();
    let mut i: usize = 0;
    while i < components.len()
        invariant
            i <= components.len(),
            keys@.len() == i,
            forall|j: int|
                0 <= j < i ==> #[trigger] keys.deep_view()[j] == license_key(
                    components.deep_view()[j],
                ),
        decreases components.len() - i,
    {
        let ghost before = keys.deep_view();
        let key = key_of(&components[i]);
        keys.push(key);
        assert(keys.deep_view() =~= before.push(license_key(components.deep_view()[i as int])));
        i += 1;
    }
    keys
}

/// The labels of the components under `license`, in order.
fn labels_for(components: &[Component], license: &str) -> (r: Vec<String>)
    ensures
        r.deep_view() == labels_under(components.deep_view(), license@),
{
    let ghost all = components.deep_view();
    let ghost keep = listed_under(license@);
    let mut out: Vec<String> = Vec::new();
    let mut i: usize = 0;
    assert(out.deep_view() =~= all.take(0).filter(keep).map_values(label_of())) by {
        reveal(Seq::filter);
    }
    while i < components.len()
        invariant
            i <= components.len(),
            all == components.deep_view(),
            keep == listed_under(license@),
            out.deep_view() == all.take(i as int).filter(keep).map_values(label_of()),
        decreases components.len() - i,
    {
        let ghost done = out.deep_view();
        let c = &components[i];
        proof {
            assert(all.take(i + 1) =~= all.take(i as int).push(all[i as int]));
            all.take(i as int).lemma_filter_push(all[i as int], keep);
        }
        if same(key_of(c).as_str(), license) {
            let label = joined3(c.name.as_str(), "@", c.version.as_str());
            let ghost v = label@;
            out.push(label);
            proof {
                let kept = all.take(i as int).filter(keep);
                assert(v == label_of()(all[i as int]));
                assert(out.deep_view() =~= done.push(v));
                assert(kept.push(all[i as int]).map_values(label_of()) =~= done.push(v));
            }
        }
        i += 1;
    }
    assert(all.take(all.len() as int) =~= all);
    sort_stable(out)
}

/// The components by their declared licenses; those that declare none stand under
/// [`NOASSERTION`]. Licenses and labels are both in order.
pub fn license_summary(components: &[Component]) -> (r: LicenseGroups)
    ensures
        is_summary(components.deep_view(), r.deep_view()),
{
    let keys = keys_of(components);
    let ghost unsorted = keys.deep_view();
    let licenses = sort_set(keys);
    proof {
        crate::sort::sorted_sets_are_sorted(unsorted);
    }
    let ghost all = components.deep_view();
    let ghost names = licenses.deep_view();
    let mut groups: Vec<(String, Vec<String>)> = Vec::new();
    let mut i: usize = 0;
    while i < licenses.len()
        invariant
            i <= licenses.len(),
            names == licenses.deep_view(),
            all == components.deep_view(),
            groups@.len() == i,
            forall|j: int|
                0 <= j < i ==> #[trigger] groups.deep_view()[j] == (
                    names[j],
                    labels_under(all, names[j]),
                ),
        decreases licenses.len() - i,
    {
        let ghost before = groups.deep_view();
        let labels = labels_for(components, licenses[i].as_str());
        let group = (licenses[i].clone(), labels);
        let ghost v = group.deep_view();
        groups.push(group);
        assert(groups.deep_view() =~= before.push(v));
        i += 1;
    }
    proof {
        let view = groups.deep_view();
        assert forall|license: Seq<char>| #[trigger]
            is_listed(view, license) == is_declared(all, license) by {
            reveal(is_listed);
            reveal(is_declared);
            if is_listed(view, license) {
                let i = choose|i: int| 0 <= i < view.len() && (#[trigger] view[i]).0 == license;
                assert(names.contains(names[i]));
                let k = choose|k: int| 0 <= k < unsorted.len() && unsorted[k] == names[i];
                assert(license_key(all[k]) == license);
            }
            if is_declared(all, license) {
                let k = choose|k: int|
                    0 <= k < all.len() && license_key(#[trigger] all[k]) == license;
                assert(unsorted[k] == license);
                assert(names.contains(license));
                let i = choose|i: int| 0 <= i < names.len() && names[i] == license;
                assert(view[i].0 == license);
            }
        }
    }
    LicenseGroups { groups }
}

/// The lines of a group: each label on a line of its own, indented.
pub open spec fn label_lines(labels: Seq<Seq<char>>) -> Seq<char>
    decreases labels.len(),
{
    if labels.len() == 0 {
        Seq::empty()
    } else {
        label_lines(labels.drop_last()) + "  "@ + labels.last() + "\n"@
    }
}

/// The groups in writing: an empty line, the license with the number of its packages, and
/// the packages.
pub open spec fn group_lines(groups: Seq<(Seq<char>, Seq<Seq<char>>)>) -> Seq<char>
    decreases groups.len(),
{
    if groups.len() == 0 {
        Seq::empty()
    } else {
        let (license, labels) = groups.last();
        group_lines(groups.drop_last()) + "\n"@ + license + " ("@ + decimal_of(labels.len()) + ")\n"@
            + label_lines(labels)
    }
}

/// The license overview of `count` packages in these groups.
pub open spec fn summary_text(count: nat, groups: Seq<(Seq<char>, Seq<Seq<char>>)>) -> Seq<char> {
    decimal_of(count) + " package(s) across "@ + decimal_of(groups.len()) + " license(s)\n"@
        + group_lines(groups)
}

/// Writes the labels of a group.
fn write_labels(out: &mut String, labels: &Vec<String>)
    ensures
        final(out)@ == old(out)@ + label_lines(labels.deep_view()),
{
    let ghost start = out@;
    let ghost all = labels.deep_view();
    let mut i: usize = 0;
    assert(out@ =~= start + label_lines(all.take(0)));
    while i < labels.len()
        invariant
            i <= labels.len(),
            all == labels.deep_view(),
            out@ == start + label_lines(all.take(i as int)),
        decreases labels.len() - i,
    {
        assert(all.take(i + 1).drop_last() =~= all.take(i as int));
        out.append("  ");
        out.append(labels[i].as_str());
        out.append("\n");
        assert(out@ =~= start + label_lines(all.take(i + 1)));
        i += 1;
    }
    assert(all.take(all.len() as int) =~= all);
}

/// A license overview in plain text: how many packages and licenses there are, then each
/// license with the packages under it.
pub fn render_summary(components: &[Component]) -> (r: String)
    ensures
        exists|groups: Seq<(Seq<char>, Seq<Seq<char>>)>| #[trigger]
            is_summary(components.deep_view(), groups) && r@ == summary_text(
                components.deep_view().len(),
                groups,
            ),
{
    let by = license_summary(components);
    let ghost groups = by.deep_view();
    let mut out = decimal(components.len() as u64);
    out.append(" package(s) across ");
    out.append(decimal(by.len() as u64).as_str());
    out.append(" license(s)\n");
    let ghost start = out@;
    let mut i: usize = 0;
    assert(out@ =~= start + group_lines(groups.take(0)));
    while i < by.len()
        invariant
            i <= groups.len(),
            groups == by.deep_view(),
            out@ == start + group_lines(groups.take(i as int)),
        decreases groups.len() - i,
    {
        assert(groups.take(i + 1).drop_last() =~= groups.take(i as int));
        let labels = by.labels(i);
        out.append("\n");
        out.append(by.license(i).as_str());
        out.append(" (");
        out.append(decimal(labels.len() as u64).as_str());
        out.append(")\n");
        write_labels(&mut out, labels);
        assert(out@ =~= start + group_lines(groups.take(i + 1)));
        i += 1;
    }
    assert(groups.take(groups.len() as int) =~= groups);
    assert(out@ =~= summary_text(components.deep_view().len(), groups));
    out
}

/// Two lists of the same components by license are the same.
pub proof fn a_summary_is_determined(
    components: Seq<ComponentView>,
    a: Seq<(Seq<char>, Seq<Seq<char>>)>,
    b: Seq<(Seq<char>, Seq<Seq<char>>)>,
)
    requires
        is_summary(components, a),
        is_summary(components, b),
    ensures
        a == b,
{
    lemma_summary_agrees(components, a, b, 0);
}

/// Two lists that agree up to `n` agree from there on.
proof fn lemma_summary_agrees(
    components: Seq<ComponentView>,
    a: Seq<(Seq<char>, Seq<Seq<char>>)>,
    b: Seq<(Seq<char>, Seq<Seq<char>>)>,
    n: int,
)
    requires
        is_summary(components, a),
        is_summary(components, b),
        0 <= n <= a.len(),
        n <= b.len(),
        forall|i: int| 0 <= i < n ==> a[i] == b[i],
    ensures
        a == b,
    decreases a.len() - n,
{
    if n < a.len() && n < b.len() {
        lemma_next_license(components, a, b, n);
        lemma_next_license(components, b, a, n);
        crate::text::lemma_text_antisymmetric(a[n].0, b[n].0);
        assert(a[n].1 == labels_under(components, a[n].0));
        assert(b[n].1 == labels_under(components, b[n].0));
        assert(a[n] == b[n]);
        lemma_summary_agrees(components, a, b, n + 1);
    } else {
        if n < a.len() {
            lemma_has_license(components, a, b, n);
        } else if n < b.len() {
            lemma_has_license(components, b, a, n);
        }
        assert(a =~= b);
    }
}

/// The license at `n` in `a` stands in `b` too, and not among the first `n` that both share.
proof fn lemma_has_license(
    components: Seq<ComponentView>,
    a: Seq<(Seq<char>, Seq<Seq<char>>)>,
    b: Seq<(Seq<char>, Seq<Seq<char>>)>,
    n: int,
) -> (j: int)
    requires
        is_summary(components, a),
        is_summary(components, b),
        0 <= n < a.len(),
        n <= b.len(),
        forall|i: int| 0 <= i < n ==> a[i] == b[i],
    ensures
        n <= j < b.len(),
        b[j].0 == a[n].0,
{
    assert(is_listed(a, a[n].0)) by {
        reveal(is_listed);
    }
    assert(is_listed(b, a[n].0));
    let j = choose|j: int| 0 <= j < b.len() && (#[trigger] b[j]).0 == a[n].0;
    assert(0 <= j < b.len() && b[j].0 == a[n].0) by {
        reveal(is_listed);
    }
    if j < n {
        assert(a[j] == b[j]);
        assert(a[j].0 != a[n].0);
    }
    j
}

/// The license at `n` in `b` comes before the one at `n` in `a`, or is the same.
proof fn lemma_next_license(
    components: Seq<ComponentView>,
    a: Seq<(Seq<char>, Seq<Seq<char>>)>,
    b: Seq<(Seq<char>, Seq<Seq<char>>)>,
    n: int,
)
    requires
        is_summary(components, a),
        is_summary(components, b),
        0 <= n < a.len(),
        n < b.len(),
        forall|i: int| 0 <= i < n ==> a[i] == b[i],
    ensures
        text_leq(b[n].0, a[n].0),
{
    let j = lemma_has_license(components, a, b, n);
    if j > n {
        assert(text_leq(b[n].0, b[j].0));
    } else {
        crate::text::lemma_text_total(b[n].0, b[n].0);
    }
}

/// Bytes in hexadecimal notation, two digits each.
pub open spec fn hex_of(bytes: Seq<u8>) -> Seq<char>
    decreases bytes.len(),
{
    if bytes.len() == 0 {
        Seq::empty()
    } else {
        hex_of(bytes.drop_last()).push(digit((bytes.last() / 16) as nat)).push(
            digit((bytes.last() % 16) as nat),
        )
    }
}

/// The digest of a `sha512-<base64>` integrity in hexadecimal notation; nothing where there
/// is none, where it is of another kind or where it is no base64.
pub open spec fn sha512_hex(integrity: Option<Seq<char>>) -> Option<Seq<char>> {
    match integrity {
        Some(sri) => match stripped(sri, "sha512-"@) {
            Some(text) => match base64_reading(text) {
                Ok(bytes) => Some(hex_of(bytes)),
                Err(_) => None,
            },
            None => None,
        },
        None => None,
    }
}

/// Bytes in hexadecimal notation, two digits each.
fn hex(bytes: &Vec<u8>) -> (r: String)
    ensures
        r@ == hex_of(bytes@),
{
    let mut out = String::new();
    let mut i: usize = 0;
    while i < bytes.len()
        invariant
            i <= bytes.len(),
            out@ =~= hex_of(bytes@.take(i as int)),
        decreases bytes.len() - i,
    {
        assert(bytes@.take(i + 1).drop_last() =~= bytes@.take(i as int));
        out.push(digit_char(bytes[i] / 16));
        out.push(digit_char(bytes[i] % 16));
        i += 1;
    }
    assert(bytes@.take(bytes@.len() as int) =~= bytes@);
    out
}

/// The digest of a `sha512-<base64>` integrity in hexadecimal notation.
pub fn sri_to_sha512_hex(integrity: Option<&str>) -> (r: Option<String>)
    ensures
        r.deep_view() == sha512_hex(integrity.deep_view()),
{
    match integrity {
        Some(sri) => match strip_prefix(sri, "sha512-") {
            Some(text) => match decode_base64(text.as_str()) {
                Ok(bytes) => Some(hex(&bytes)),
                Err(_) => None,
            },
            None => None,
        },
        None => None,
    }
}

/// Whether a license reads as an SPDX expression and not as a single id.
pub open spec fn is_expression(license: Seq<char>) -> bool {
    ||| contains(license, " OR "@)
    ||| contains(license, " AND "@)
    ||| contains(license, " WITH "@)
    ||| contains(license, "("@)
}

/// Whether a license reads as an SPDX expression and not as a single id.
fn is_spdx_expression(license: &str) -> (r: bool)
    ensures
        r == is_expression(license@),
{
    holds(license, " OR ") || holds(license, " AND ") || holds(license, " WITH ") || holds(
        license,
        "(",
    )
}

/// The `licenses` of a CycloneDX component: an expression or a single id.
pub open spec fn cyclonedx_licenses_of(license: Seq<char>) -> JsonView {
    if is_expression(license) {
        JsonView::Array(seq![JsonView::Object(seq![("expression"@, JsonView::Str(license))])])
    } else {
        JsonView::Array(
            seq![
                JsonView::Object(
                    seq![
                        ("license"@, JsonView::Object(seq![("id"@, JsonView::Str(license))])),
                    ],
                ),
            ],
        )
    }
}

/// The `licenses` of a CycloneDX component: an expression or a single id.
fn cyclonedx_licenses(license: &str) -> (r: Json)
    ensures
        r.deep_view() == cyclonedx_licenses_of(license@),
{
    if is_spdx_expression(license) {
        array_of(object_of("expression", Json::string(license)))
    } else {
        array_of(object_of("license", object_of("id", Json::string(license))))
    }
}

/// The `hashes` of a CycloneDX component.
pub open spec fn cyclonedx_hashes(integrity: Option<Seq<char>>) -> Option<JsonView> {
    match sha512_hex(integrity) {
        Some(hex) => Some(
            JsonView::Array(
                seq![
                    JsonView::Object(
                        seq![
                            ("alg"@, JsonView::Str("SHA-512"@)),
                            ("content"@, JsonView::Str(hex)),
                        ],
                    ),
                ],
            ),
        ),
        None => None,
    }
}

/// A component of a CycloneDX document.
pub open spec fn cyclonedx_component() -> spec_fn(ComponentView) -> JsonView {
    |c: ComponentView|
        JsonView::Object(
            seq![
                ("type"@, JsonView::Str("library"@)),
                ("bom-ref"@, JsonView::Str(c.purl)),
                ("name"@, JsonView::Str(c.name)),
                ("version"@, JsonView::Str(c.version)),
            ] + optional_member(
                "licenses"@,
                match c.license {
                    Some(license) => Some(cyclonedx_licenses_of(license)),
                    None => None,
                },
            ) + seq![("purl"@, JsonView::Str(c.purl))] + optional_member(
                "hashes"@,
                cyclonedx_hashes(c.integrity),
            ),
        )
}

/// The tool that wrote a document, as CycloneDX names it.
pub open spec fn cyclonedx_tool() -> JsonView {
    JsonView::Object(
        seq![
            (
                "components"@,
                JsonView::Array(
                    seq![
                        JsonView::Object(
                            seq![
                                ("type"@, JsonView::Str("application"@)),
                                ("name"@, JsonView::Str(TOOL_NAME@)),
                                ("version"@, JsonView::Str(TOOL_VERSION@)),
                            ],
                        ),
                    ],
                ),
            ),
        ],
    )
}

/// The root component of a CycloneDX document.
pub open spec fn cyclonedx_root(app_name: Seq<char>, app_version: Seq<char>) -> JsonView {
    JsonView::Object(
        seq![
            ("type"@, JsonView::Str("application"@)),
            ("bom-ref"@, JsonView::Str(app_name + "@"@ + app_version)),
            ("name"@, JsonView::Str(app_name)),
            ("version"@, JsonView::Str(app_version)),
        ],
    )
}

/// The metadata of a CycloneDX document.
pub open spec fn cyclonedx_metadata(
    app_name: Seq<char>,
    app_version: Seq<char>,
    timestamp: Option<Seq<char>>,
) -> JsonView {
    JsonView::Object(
        optional_member(
            "timestamp"@,
            match timestamp {
                Some(ts) => Some(JsonView::Str(ts)),
                None => None,
            },
        ) + seq![
            ("tools"@, cyclonedx_tool()),
            ("component"@, cyclonedx_root(app_name, app_version)),
        ],
    )
}

/// A CycloneDX 1.6 document.
pub open spec fn cyclonedx_document(
    components: Seq<ComponentView>,
    app_name: Seq<char>,
    app_version: Seq<char>,
    timestamp: Option<Seq<char>>,
) -> JsonView {
    JsonView::Object(
        seq![
            ("bomFormat"@, JsonView::Str("CycloneDX"@)),
            ("specVersion"@, JsonView::Str("1.6"@)),
            ("version"@, JsonView::Number(NumberView::Unsigned(1))),
            ("metadata"@, cyclonedx_metadata(app_name, app_version, timestamp)),
            ("components"@, JsonView::Array(components.map_values(cyclonedx_component()))),
        ],
    )
}

/// A component of a CycloneDX document.
fn cyclonedx_entry(c: &Component) -> (r: Json)
    ensures
        r.deep_view() == cyclonedx_component()(c.deep_view()),
{
    let mut m = no_members();
    put(&mut m, "type", Json::string("library"));
    put(&mut m, "bom-ref", Json::string(c.purl.as_str()));
    put(&mut m, "name", Json::string(c.name.as_str()));
    put(&mut m, "version", Json::string(c.version.as_str()));
    if let Some(license) = &c.license {
        put(&mut m, "licenses", cyclonedx_licenses(license.as_str()));
    }
    put(&mut m, "purl", Json::string(c.purl.as_str()));
    let integrity: Option<&str> = match &c.integrity {
        Some(sri) => Some(sri.as_str()),
        None => None,
    };
    if let Some(hex) = sri_to_sha512_hex(integrity) {
        let mut hash = no_members();
        put(&mut hash, "alg", Json::string("SHA-512"));
        put(&mut hash, "content", Json::string(hex.as_str()));
        assert(hash.deep_view() =~= seq![
            ("alg"@, JsonView::Str("SHA-512"@)),
            ("content"@, JsonView::Str(hex@)),
        ]);
        put(&mut m, "hashes", array_of(object(hash)));
    }
    assert(m.deep_view() =~= cyclonedx_component()(c.deep_view())->Object_0);
    object(m)
}

/// The tool that wrote a document, as CycloneDX names it.
fn cyclonedx_tools() -> (r: Json)
    ensures
        r.deep_view() == cyclonedx_tool(),
{
    let mut m = no_members();
    put(&mut m, "type", Json::string("application"));
    put(&mut m, "name", Json::string(TOOL_NAME));
    put(&mut m, "version", Json::string(TOOL_VERSION));
    assert(m.deep_view() =~= seq![
        ("type"@, JsonView::Str("application"@)),
        ("name"@, JsonView::Str(TOOL_NAME@)),
        ("version"@, JsonView::Str(TOOL_VERSION@)),
    ]);
    object_of("components", array_of(object(m)))
}

/// A CycloneDX 1.6 document.
fn cyclonedx_json(
    components: &[Component],
    app_name: &str,
    app_version: &str,
    timestamp: Option<&str>,
) -> (r: Json)
    ensures
        r.deep_view() == cyclonedx_document(
            components.deep_view(),
            app_name@,
            app_version@,
            timestamp.deep_view(),
        ),
{
    let mut metadata = no_members();
    if let Some(ts) = timestamp {
        put(&mut metadata, "timestamp", Json::string(ts));
    }
    put(&mut metadata, "tools", cyclonedx_tools());
    let mut root = no_members();
    put(&mut root, "type", Json::string("application"));
    put(&mut root, "bom-ref", Json::string(joined3(app_name, "@", app_version).as_str()));
    put(&mut root, "name", Json::string(app_name));
    put(&mut root, "version", Json::string(app_version));
    assert(root.deep_view() =~= cyclonedx_root(app_name@, app_version@)->Object_0);
    put(&mut metadata, "component", object(root));
    assert(metadata.deep_view() =~= cyclonedx_metadata(
        app_name@,
        app_version@,
        timestamp.deep_view(),
    )->Object_0);

    let ghost all = components.deep_view();
    let mut comps = no_items();
    let mut i: usize = 0;
    assert(comps.deep_view() =~= all.take(0).map_values(cyclonedx_component()));
    while i < components.len()
        invariant
            i <= components.len(),
            all == components.deep_view(),
            comps.deep_view() =~= all.take(i as int).map_values(cyclonedx_component()),
        decreases components.len() - i,
    {
        add_item(&mut comps, cyclonedx_entry(&components[i]));
        i += 1;
    }
    assert(all.take(all.len() as int) =~= all);

    let mut doc = no_members();
    put(&mut doc, "bomFormat", Json::string("CycloneDX"));
    put(&mut doc, "specVersion", Json::string("1.6"));
    put(&mut doc, "version", Json::Number(Number::Unsigned(1)));
    put(&mut doc, "metadata", object(metadata));
    put(&mut doc, "components", array(comps));
    assert(doc.deep_view() =~= cyclonedx_document(
        all,
        app_name@,
        app_version@,
        timestamp.deep_view(),
    )->Object_0);
    object(doc)
}

/// A CycloneDX 1.6 bill of materials. `app_name` and `app_version` are of the root
/// component; `timestamp` is an RFC 3339 time, or nothing for output that can be reproduced.
/// The text reads back as the document.
pub fn to_cyclonedx(
    components: &[Component],
    app_name: &str,
    app_version: &str,
    timestamp: Option<&str>,
) -> (r: String)
    ensures
        r@ == pretty_text(
            cyclonedx_document(
                components.deep_view(),
                app_name@,
                app_version@,
                timestamp.deep_view(),
            ),
        ) + "\n"@,
        reads_as(
            r@,
            cyclonedx_document(
                components.deep_view(),
                app_name@,
                app_version@,
                timestamp.deep_view(),
            ),
        ),
{
    let doc = cyclonedx_json(components, app_name, app_version, timestamp);
    proof {
        cyclonedx_is_tidy(
            components.deep_view(),
            app_name@,
            app_version@,
            timestamp.deep_view(),
        );
        crate::json::lemma_plain_is_normal(doc.deep_view());
    }
    joined(doc.to_pretty().as_str(), "\n")
}

/// A CycloneDX document has no key twice and reads back from its print.
pub proof fn cyclonedx_is_tidy(
    components: Seq<ComponentView>,
    app_name: Seq<char>,
    app_version: Seq<char>,
    timestamp: Option<Seq<char>>,
)
    ensures
        is_tidy(cyclonedx_document(components, app_name, app_version, timestamp), 127),
{
    let entries = components.map_values(cyclonedx_component());
    assert forall|i: int| 0 <= i < entries.len() implies is_tidy(#[trigger] entries[i], 125) by {
        lemma_cyclonedx_component_tidy(components[i], 125);
    }
    crate::json::lemma_tidy_array(entries, 126);
    lemma_cyclonedx_metadata_tidy(app_name, app_version, timestamp, 126);
    reveal_strlit("bomFormat");
    assert("bomFormat"@.len() == 9);
    reveal_strlit("specVersion");
    assert("specVersion"@.len() == 11);
    reveal_strlit("version");
    assert("version"@.len() == 7);
    reveal_strlit("metadata");
    assert("metadata"@.len() == 8);
    reveal_strlit("components");
    assert("components"@.len() == 10);
    let members = cyclonedx_document(components, app_name, app_version, timestamp)->Object_0;
    assert(distinct_members(members));
    crate::json::lemma_tidy_object(members, 127);
}

proof fn lemma_cyclonedx_metadata_tidy(
    app_name: Seq<char>,
    app_version: Seq<char>,
    timestamp: Option<Seq<char>>,
    levels: nat,
)
    requires
        levels >= 5,
    ensures
        is_tidy(cyclonedx_metadata(app_name, app_version, timestamp), levels),
{
    reveal_strlit("type");
    assert("type"@.len() == 4);
    reveal_strlit("bom-ref");
    assert("bom-ref"@.len() == 7);
    reveal_strlit("name");
    assert("name"@.len() == 4);
    reveal_strlit("version");
    assert("version"@.len() == 7);
    reveal_strlit("timestamp");
    assert("timestamp"@.len() == 9);
    reveal_strlit("tools");
    assert("tools"@.len() == 5);
    reveal_strlit("component");
    assert("component"@.len() == 9);
    assert("type"@[0] == 't' && "name"@[0] == 'n');
    assert("bom-ref"@[0] == 'b' && "version"@[0] == 'v');
    assert("timestamp"@[0] == 't' && "component"@[0] == 'c');
    let root = cyclonedx_root(app_name, app_version)->Object_0;
    assert(distinct_members(root));
    crate::json::lemma_tidy_object(root, (levels - 1) as nat);
    let tool = cyclonedx_tool()->Object_0[0].1->Array_0;
    assert(distinct_members(tool[0]->Object_0));
    crate::json::lemma_tidy_object(tool[0]->Object_0, (levels - 3) as nat);
    crate::json::lemma_tidy_array(tool, (levels - 2) as nat);
    crate::json::lemma_tidy_object(cyclonedx_tool()->Object_0, (levels - 1) as nat);
    let members = cyclonedx_metadata(app_name, app_version, timestamp)->Object_0;
    assert(distinct_members(members));
    crate::json::lemma_tidy_object(members, levels);
}

proof fn lemma_cyclonedx_component_tidy(c: ComponentView, levels: nat)
    requires
        levels >= 5,
    ensures
        is_tidy(cyclonedx_component()(c), levels),
{
    reveal_strlit("type");
    assert("type"@.len() == 4);
    reveal_strlit("bom-ref");
    assert("bom-ref"@.len() == 7);
    reveal_strlit("name");
    assert("name"@.len() == 4);
    reveal_strlit("version");
    assert("version"@.len() == 7);
    reveal_strlit("licenses");
    assert("licenses"@.len() == 8);
    reveal_strlit("purl");
    assert("purl"@.len() == 4);
    reveal_strlit("hashes");
    assert("hashes"@.len() == 6);
    reveal_strlit("alg");
    assert("alg"@.len() == 3);
    reveal_strlit("content");
    assert("content"@.len() == 7);
    let members = cyclonedx_component()(c)->Object_0;
    if let Some(license) = c.license {
        let item = cyclonedx_licenses_of(license)->Array_0[0];
        if !is_expression(license) {
            crate::json::lemma_tidy_object(item->Object_0[0].1->Object_0, (levels - 3) as nat);
        }
        crate::json::lemma_tidy_object(item->Object_0, (levels - 2) as nat);
        crate::json::lemma_tidy_array(cyclonedx_licenses_of(license)->Array_0, (levels - 1) as nat);
    }
    if let Some(hashes) = cyclonedx_hashes(c.integrity) {
        assert(distinct_members(hashes->Array_0[0]->Object_0));
        crate::json::lemma_tidy_object(hashes->Array_0[0]->Object_0, (levels - 2) as nat);
        crate::json::lemma_tidy_array(hashes->Array_0, (levels - 1) as nat);
    }
    assert("type"@[0] == 't' && "name"@[0] == 'n' && "purl"@[0] == 'p');
    assert("bom-ref"@[0] == 'b' && "version"@[0] == 'v');
    assert(distinct_members(members));
    crate::json::lemma_tidy_object(members, levels);
}

/// `c` where it may stand in an SPDX id, else a hyphen.
pub open spec fn id_char(c: char) -> char {
    if 'a' <= c <= 'z' || 'A' <= c <= 'Z' || '0' <= c <= '9' || c == '.' || c == '-' {
        c
    } else {
        '-'
    }
}

/// `s` with a hyphen for every character that may not stand in an SPDX id.
pub open spec fn id_fragment(s: Seq<char>) -> Seq<char> {
    s.map_values(|c: char| id_char(c))
}

/// `s` with a hyphen for every character that may not stand in an SPDX id.
fn spdx_id_fragment(s: &str) -> (r: String)
    ensures
        r@ == id_fragment(s@),
{
    let chars = chars_of(s);
    let mut out = String::new();
    let mut i: usize = 0;
    while i < chars.len()
        invariant
            i <= chars.len(),
            chars@ == s@,
            out@ =~= id_fragment(s@.take(i as int)),
        decreases chars.len() - i,
    {
        let c = chars[i];
        if ('a' <= c && c <= 'z') || ('A' <= c && c <= 'Z') || ('0' <= c && c <= '9') || c == '.'
            || c == '-' {
            out.push(c);
        } else {
            out.push('-');
        }
        i += 1;
    }
    assert(s@.take(s@.len() as int) =~= s@);
    out
}

/// Every character of an SPDX id fragment is one of those that may stand there, and there
/// are as many as in what it was made of.
pub proof fn id_fragments_are_valid(s: Seq<char>)
    ensures
        id_fragment(s).len() == s.len(),
        forall|i: int|
            0 <= i < s.len() ==> {
                let c = #[trigger] id_fragment(s)[i];
                'a' <= c <= 'z' || 'A' <= c <= 'Z' || '0' <= c <= '9' || c == '.' || c == '-'
            },
{
}

/// A text, or [`NOASSERTION`] where there is none.
pub open spec fn or_noassertion(s: Option<Seq<char>>) -> JsonView {
    match s {
        Some(t) => JsonView::Str(t),
        None => JsonView::Str(NOASSERTION@),
    }
}

/// The `checksums` of an SPDX package.
pub open spec fn spdx_checksums(integrity: Option<Seq<char>>) -> Option<JsonView> {
    match sha512_hex(integrity) {
        Some(hex) => Some(
            JsonView::Array(
                seq![
                    JsonView::Object(
                        seq![
                            ("algorithm"@, JsonView::Str("SHA512"@)),
                            ("checksumValue"@, JsonView::Str(hex)),
                        ],
                    ),
                ],
            ),
        ),
        None => None,
    }
}

/// The `externalRefs` of an SPDX package.
pub open spec fn spdx_refs(purl: Seq<char>) -> JsonView {
    JsonView::Array(
        seq![
            JsonView::Object(
                seq![
                    ("referenceCategory"@, JsonView::Str("PACKAGE-MANAGER"@)),
                    ("referenceType"@, JsonView::Str("purl"@)),
                    ("referenceLocator"@, JsonView::Str(purl)),
                ],
            ),
        ],
    )
}

/// The SPDX id of a package.
pub open spec fn spdx_id(name: Seq<char>, version: Seq<char>) -> Seq<char> {
    "SPDXRef-Package-"@ + id_fragment(name) + "-"@ + id_fragment(version)
}

/// A package of an SPDX document.
pub open spec fn spdx_package() -> spec_fn(ComponentView) -> JsonView {
    |c: ComponentView|
        JsonView::Object(
            seq![
                ("SPDXID"@, JsonView::Str(spdx_id(c.name, c.version))),
                ("name"@, JsonView::Str(c.name)),
                ("versionInfo"@, JsonView::Str(c.version)),
                ("downloadLocation"@, or_noassertion(c.resolved)),
                ("filesAnalyzed"@, JsonView::Bool(false)),
                ("licenseConcluded"@, JsonView::Str(NOASSERTION@)),
                ("licenseDeclared"@, or_noassertion(c.license)),
                ("copyrightText"@, JsonView::Str(NOASSERTION@)),
                ("externalRefs"@, spdx_refs(c.purl)),
            ] + optional_member("checksums"@, spdx_checksums(c.integrity)),
        )
}

/// When and by what an SPDX document was made.
pub open spec fn spdx_creation(created: Seq<char>) -> JsonView {
    JsonView::Object(
        seq![
            ("created"@, JsonView::Str(created)),
            (
                "creators"@,
                JsonView::Array(seq![JsonView::Str("Tool: "@ + TOOL_NAME@ + "-"@ + TOOL_VERSION@)]),
            ),
        ],
    )
}

/// An SPDX 2.3 document.
pub open spec fn spdx_document(
    components: Seq<ComponentView>,
    name: Seq<char>,
    namespace: Seq<char>,
    created: Seq<char>,
) -> JsonView {
    JsonView::Object(
        seq![
            ("spdxVersion"@, JsonView::Str("SPDX-2.3"@)),
            ("dataLicense"@, JsonView::Str("CC0-1.0"@)),
            ("SPDXID"@, JsonView::Str("SPDXRef-DOCUMENT"@)),
            ("name"@, JsonView::Str(name)),
            ("documentNamespace"@, JsonView::Str(namespace)),
            ("creationInfo"@, spdx_creation(created)),
            ("packages"@, JsonView::Array(components.map_values(spdx_package()))),
        ],
    )
}

/// A text, or [`NOASSERTION`] where there is none.
fn text_or_noassertion(s: &Option<String>) -> (r: Json)
    ensures
        r.deep_view() == or_noassertion(s.deep_view()),
{
    match s {
        Some(t) => Json::string(t.as_str()),
        None => Json::string(NOASSERTION),
    }
}

/// A package of an SPDX document.
fn spdx_entry(c: &Component) -> (r: Json)
    ensures
        r.deep_view() == spdx_package()(c.deep_view()),
{
    let mut m = no_members();
    let mut id = joined("SPDXRef-Package-", spdx_id_fragment(c.name.as_str()).as_str());
    id.append("-");
    id.append(spdx_id_fragment(c.version.as_str()).as_str());
    put(&mut m, "SPDXID", Json::string(id.as_str()));
    put(&mut m, "name", Json::string(c.name.as_str()));
    put(&mut m, "versionInfo", Json::string(c.version.as_str()));
    put(&mut m, "downloadLocation", text_or_noassertion(&c.resolved));
    put(&mut m, "filesAnalyzed", Json::Bool(false));
    put(&mut m, "licenseConcluded", Json::string(NOASSERTION));
    put(&mut m, "licenseDeclared", text_or_noassertion(&c.license));
    put(&mut m, "copyrightText", Json::string(NOASSERTION));
    let mut reference = no_members();
    put(&mut reference, "referenceCategory", Json::string("PACKAGE-MANAGER"));
    put(&mut reference, "referenceType", Json::string("purl"));
    put(&mut reference, "referenceLocator", Json::string(c.purl.as_str()));
    assert(reference.deep_view() =~= spdx_refs(c.purl@)->Array_0[0]->Object_0);
    put(&mut m, "externalRefs", array_of(object(reference)));
    let integrity: Option<&str> = match &c.integrity {
        Some(sri) => Some(sri.as_str()),
        None => None,
    };
    if let Some(hex) = sri_to_sha512_hex(integrity) {
        let mut checksum = no_members();
        put(&mut checksum, "algorithm", Json::string("SHA512"));
        put(&mut checksum, "checksumValue", Json::string(hex.as_str()));
        assert(checksum.deep_view() =~= seq![
            ("algorithm"@, JsonView::Str("SHA512"@)),
            ("checksumValue"@, JsonView::Str(hex@)),
        ]);
        put(&mut m, "checksums", array_of(object(checksum)));
    }
    assert(m.deep_view() =~= spdx_package()(c.deep_view())->Object_0);
    object(m)
}

/// An SPDX 2.3 document.
fn spdx_json(components: &[Component], name: &str, namespace: &str, created: &str) -> (r: Json)
    ensures
        r.deep_view() == spdx_document(components.deep_view(), name@, namespace@, created@),
{
    let ghost all = components.deep_view();
    let mut packages = no_items();
    let mut i: usize = 0;
    assert(packages.deep_view() =~= all.take(0).map_values(spdx_package()));
    while i < components.len()
        invariant
            i <= components.len(),
            all == components.deep_view(),
            packages.deep_view() =~= all.take(i as int).map_values(spdx_package()),
        decreases components.len() - i,
    {
        add_item(&mut packages, spdx_entry(&components[i]));
        i += 1;
    }
    assert(all.take(all.len() as int) =~= all);

    let mut creation = no_members();
    put(&mut creation, "created", Json::string(created));
    let mut tool = joined3("Tool: ", TOOL_NAME, "-");
    tool.append(TOOL_VERSION);
    put(&mut creation, "creators", array_of(Json::string(tool.as_str())));
    assert(creation.deep_view() =~= spdx_creation(created@)->Object_0);

    let mut doc = no_members();
    put(&mut doc, "spdxVersion", Json::string("SPDX-2.3"));
    put(&mut doc, "dataLicense", Json::string("CC0-1.0"));
    put(&mut doc, "SPDXID", Json::string("SPDXRef-DOCUMENT"));
    put(&mut doc, "name", Json::string(name));
    put(&mut doc, "documentNamespace", Json::string(namespace));
    put(&mut doc, "creationInfo", object(creation));
    put(&mut doc, "packages", array(packages));
    assert(doc.deep_view() =~= spdx_document(all, name@, namespace@, created@)->Object_0);
    object(doc)
}

/// An SPDX 2.3 bill of materials. `name` and `namespace` are the name of the document and
/// its unique URI, `created` is the RFC 3339 time at which it was made. The text reads back
/// as the document.
pub fn to_spdx(components: &[Component], name: &str, namespace: &str, created: &str) -> (r: String)
    ensures
        r@ == pretty_text(spdx_document(components.deep_view(), name@, namespace@, created@))
            + "\n"@,
        reads_as(r@, spdx_document(components.deep_view(), name@, namespace@, created@)),
{
    let doc = spdx_json(components, name, namespace, created);
    proof {
        spdx_is_tidy(components.deep_view(), name@, namespace@, created@);
        crate::json::lemma_plain_is_normal(doc.deep_view());
    }
    joined(doc.to_pretty().as_str(), "\n")
}

/// An SPDX document has no key twice and reads back from its print.
pub proof fn spdx_is_tidy(
    components: Seq<ComponentView>,
    name: Seq<char>,
    namespace: Seq<char>,
    created: Seq<char>,
)
    ensures
        is_tidy(spdx_document(components, name, namespace, created), 127),
{
    let entries = components.map_values(spdx_package());
    assert forall|i: int| 0 <= i < entries.len() implies is_tidy(#[trigger] entries[i], 125) by {
        lemma_spdx_package_tidy(components[i], 125);
    }
    crate::json::lemma_tidy_array(entries, 126);
    reveal_strlit("spdxVersion");
    assert("spdxVersion"@.len() == 11);
    reveal_strlit("dataLicense");
    assert("dataLicense"@.len() == 11);
    reveal_strlit("SPDXID");
    assert("SPDXID"@.len() == 6);
    reveal_strlit("name");
    assert("name"@.len() == 4);
    reveal_strlit("documentNamespace");
    assert("documentNamespace"@.len() == 17);
    reveal_strlit("creationInfo");
    assert("creationInfo"@.len() == 12);
    reveal_strlit("packages");
    assert("packages"@.len() == 8);
    reveal_strlit("created");
    assert("created"@.len() == 7);
    reveal_strlit("creators");
    assert("creators"@.len() == 8);
    assert("spdxVersion"@[0] == 's' && "dataLicense"@[0] == 'd');
    let creation = spdx_creation(created)->Object_0;
    crate::json::lemma_tidy_array(creation[1].1->Array_0, 125);
    assert(distinct_members(creation));
    crate::json::lemma_tidy_object(creation, 126);
    let members = spdx_document(components, name, namespace, created)->Object_0;
    assert(distinct_members(members));
    crate::json::lemma_tidy_object(members, 127);
}

proof fn lemma_spdx_package_tidy(c: ComponentView, levels: nat)
    requires
        levels >= 5,
    ensures
        is_tidy(spdx_package()(c), levels),
{
    reveal_strlit("SPDXID");
    assert("SPDXID"@.len() == 6);
    reveal_strlit("name");
    assert("name"@.len() == 4);
    reveal_strlit("versionInfo");
    assert("versionInfo"@.len() == 11);
    reveal_strlit("downloadLocation");
    assert("downloadLocation"@.len() == 16);
    reveal_strlit("filesAnalyzed");
    assert("filesAnalyzed"@.len() == 13);
    reveal_strlit("licenseConcluded");
    assert("licenseConcluded"@.len() == 16);
    reveal_strlit("licenseDeclared");
    assert("licenseDeclared"@.len() == 15);
    reveal_strlit("copyrightText");
    assert("copyrightText"@.len() == 13);
    reveal_strlit("externalRefs");
    assert("externalRefs"@.len() == 12);
    reveal_strlit("checksums");
    assert("checksums"@.len() == 9);
    reveal_strlit("referenceCategory");
    assert("referenceCategory"@.len() == 17);
    reveal_strlit("referenceType");
    assert("referenceType"@.len() == 13);
    reveal_strlit("referenceLocator");
    assert("referenceLocator"@.len() == 16);
    reveal_strlit("algorithm");
    assert("algorithm"@.len() == 9);
    reveal_strlit("checksumValue");
    assert("checksumValue"@.len() == 13);
    assert("downloadLocation"@[0] == 'd' && "licenseConcluded"@[0] == 'l');
    assert("filesAnalyzed"@[0] == 'f' && "copyrightText"@[0] == 'c');
    let refs = spdx_refs(c.purl)->Array_0;
    assert(distinct_members(refs[0]->Object_0));
    crate::json::lemma_tidy_object(refs[0]->Object_0, (levels - 2) as nat);
    crate::json::lemma_tidy_array(refs, (levels - 1) as nat);
    if let Some(sums) = spdx_checksums(c.integrity) {
        assert(distinct_members(sums->Array_0[0]->Object_0));
        crate::json::lemma_tidy_object(sums->Array_0[0]->Object_0, (levels - 2) as nat);
        crate::json::lemma_tidy_array(sums->Array_0, (levels - 1) as nat);
    }
    let members = spdx_package()(c)->Object_0;
    assert(distinct_members(members));
    crate::json::lemma_tidy_object(members, levels);
}

/// `component` is that of one of the packages that a lockfile pins.
pub open spec fn stems_from(component: ComponentView, packages: Seq<LockedView>) -> bool {
    exists|i: int|
        0 <= i < packages.len() && is_package(#[trigger] packages[i]) && component
            == component_of()(packages[i])
}

/// A bill lists just the packages that a lockfile pins, with what it records of them, in the
/// order of their names and then versions.
pub proof fn a_bill_lists_the_locked_packages(packages: Seq<LockedView>)
    ensures
        ({
            let bill = components_of(packages);
            &&& is_sorted::<Component>(bill)
            &&& bill.len() == packages.filter(packages_only()).len()
            &&& forall|i: int|
                0 <= i < packages.len() && is_package(#[trigger] packages[i]) ==> bill.contains(
                    component_of()(packages[i]),
                )
            &&& forall|k: int| 0 <= k < bill.len() ==> stems_from(#[trigger] bill[k], packages)
        }),
{
    let kept = packages.filter(packages_only());
    let listed = kept.map_values(component_of());
    let bill = components_of(packages);
    sorting_is_stable::<Component>(listed);
    assert forall|i: int|
        0 <= i < packages.len() && is_package(#[trigger] packages[i]) implies bill.contains(
        component_of()(packages[i]),
    ) by {
        packages.lemma_filter_contains(packages_only(), i);
        let k = choose|k: int| 0 <= k < kept.len() && kept[k] == packages[i];
        assert(listed[k] == component_of()(packages[i]));
        lemma_same_values(listed, bill, listed[k]);
    }
    assert forall|k: int| 0 <= k < bill.len() implies stems_from(
        #[trigger] bill[k],
        packages,
    ) by {
        assert(bill.contains(bill[k]));
        lemma_same_values(bill, listed, bill[k]);
        let j = choose|j: int| 0 <= j < listed.len() && listed[j] == bill[k];
        packages.lemma_filter_pred(packages_only(), j);
        packages.lemma_filter_contains_rev(packages_only(), kept[j]);
        let i = choose|i: int| 0 <= i < packages.len() && packages[i] == kept[j];
        assert(is_package(packages[i]));
        assert(bill[k] == component_of()(packages[i]));
    }
}

/// The RFC 3339 text that `time::OffsetDateTime::format` gives for a number of seconds since
/// the start of 1970 in UTC, where it gives one.
pub uninterp spec fn rfc3339_text(seconds: i64) -> Option<Seq<char>>;

/// Calls `time::OffsetDateTime::now_utc`: the seconds since the start of 1970 by the clock of
/// the machine. Nothing is said of them.
#[verifier::external_body]
fn unix_now() -> i64 {
    time::OffsetDateTime::now_utc().unix_timestamp()
}

/// Calls `time::OffsetDateTime::from_unix_timestamp` and its `format` with `Rfc3339`: from year
/// 0 to year 9999 there is a text, of twenty characters with `Z` at the end.
#[verifier::external_body]
fn format_rfc3339(seconds: i64) -> (r: Option<String>)
    ensures
        r.deep_view() == rfc3339_text(seconds),
        -62_167_219_200 <= seconds <= 253_402_300_799 ==> r is Some && r->Some_0@.len() == 20
            && r->Some_0@[19] == 'Z',
{
    let at = time::OffsetDateTime::from_unix_timestamp(seconds).ok()?;
    at.format(&time::format_description::well_known::Rfc3339).ok()
}

/// A time in UTC in writing, given in seconds since the start of 1970; nothing outside the
/// years that RFC 3339 can write.
pub fn rfc3339_at(seconds: i64) -> (r: Option<String>)
    ensures
        r.deep_view() == rfc3339_text(seconds),
        -62_167_219_200 <= seconds <= 253_402_300_799 ==> r is Some && r->Some_0@.len() == 20
            && r->Some_0@[19] == 'Z',
{
    format_rfc3339(seconds)
}

/// The time of the machine's clock in writing, to the second, for the time at which a document
/// is made.
pub fn now_rfc3339() -> (r: Option<String>)
    ensures
        exists|seconds: i64| r.deep_view() == #[trigger] rfc3339_text(seconds),
{
    rfc3339_at(unix_now())
}

} // verus!
