//! What a bill of materials says of each component, read by its keys.

use crate::integrity::base64_reading;
use crate::json::{is_plain, lemma_distinct_lookup, lookup, JsonView};
use crate::package_json::lock::LockedView;
use crate::sbom::{
    component_of, components_of, cyclonedx_component, cyclonedx_document, cyclonedx_hashes,
    cyclonedx_is_tidy, group_lines, hex_of, id_fragment, is_listed, is_summary, label_lines,
    label_of, labels_under, license_key, listed_under, sha512_hex, spdx_document, spdx_is_tidy,
    spdx_package, ComponentView, NOASSERTION,
};
use crate::sort::{lemma_same_values, sorting_is_stable};
use crate::text::{contains, digit};
use vstd::prelude::*;
use vstd::string::*;

verus! {

/// Whether `license` reads as an expression: it has a word between two licenses, or a bracket.
pub open spec fn reads_as_expression(license: Seq<char>) -> bool {
    contains(license, " OR "@) || contains(license, " AND "@) || contains(license, " WITH "@)
        || contains(license, "("@)
}

/// Whether the `licenses` of an entry are those of a component: an expression, a single id, or
/// none at all.
pub open spec fn has_license(entry: JsonView, license: Option<Seq<char>>) -> bool {
    match license {
        Some(l) => entry.get("licenses"@) matches Some(JsonView::Array(items)) && items.len() == 1
            && if reads_as_expression(l) {
            items[0].get("expression"@) == Some(JsonView::Str(l))
        } else {
            items[0].get("license"@) matches Some(id) && id.get("id"@) == Some(JsonView::Str(l))
        },
        None => entry.get("licenses"@) is None,
    }
}

/// A CycloneDX document has an entry for each component, at its place, with just its name,
/// version, package URL and license.
pub proof fn cyclonedx_lists_each_component(
    components: Seq<ComponentView>,
    app_name: Seq<char>,
    app_version: Seq<char>,
    timestamp: Option<Seq<char>>,
)
    ensures
        ({
            let doc = cyclonedx_document(components, app_name, app_version, timestamp);
            &&& doc.get("bomFormat"@) == Some(JsonView::Str("CycloneDX"@))
            &&& doc.get("specVersion"@) == Some(JsonView::Str("1.6"@))
            &&& doc.get("components"@) matches Some(JsonView::Array(entries)) && entries.len()
                == components.len() && forall|i: int|
                0 <= i < components.len() ==> cyclonedx_entry_says(
                    #[trigger] entries[i],
                    components[i],
                )
        }),
{
    cyclonedx_is_tidy(components, app_name, app_version, timestamp);
    let doc = cyclonedx_document(components, app_name, app_version, timestamp);
    let members = doc->Object_0;
    assert(is_plain(doc));
    lemma_distinct_lookup(members, 0);
    lemma_distinct_lookup(members, 1);
    lemma_distinct_lookup(members, 4);
    let entries = members[4].1->Array_0;
    assert(is_plain(members[4].1));
    assert forall|i: int| 0 <= i < components.len() implies cyclonedx_entry_says(
        #[trigger] entries[i],
        components[i],
    ) by {
        assert(is_plain(entries[i]));
        lemma_cyclonedx_entry(components[i]);
    }
}

/// Whether an entry of a CycloneDX document says what a component is.
pub open spec fn cyclonedx_entry_says(entry: JsonView, c: ComponentView) -> bool {
    &&& entry.get("type"@) == Some(JsonView::Str("library"@))
    &&& entry.get("name"@) == Some(JsonView::Str(c.name))
    &&& entry.get("version"@) == Some(JsonView::Str(c.version))
    &&& entry.get("purl"@) == Some(JsonView::Str(c.purl))
    &&& entry.get("bom-ref"@) == Some(JsonView::Str(c.purl))
    &&& has_license(entry, c.license)
    &&& match sha512_hex(c.integrity) {
        Some(hex) => entry.get("hashes"@) matches Some(JsonView::Array(items)) && items.len() == 1
            && items[0].get("alg"@) == Some(JsonView::Str("SHA-512"@)) && items[0].get("content"@)
            == Some(JsonView::Str(hex)),
        None => entry.get("hashes"@) is None,
    }
}

proof fn lemma_cyclonedx_entry(c: ComponentView)
    requires
        is_plain(cyclonedx_component()(c)),
    ensures
        cyclonedx_entry_says(cyclonedx_component()(c), c),
{
    let entry = cyclonedx_component()(c);
    let members = entry->Object_0;
    lemma_distinct_lookup(members, 0);
    lemma_distinct_lookup(members, 1);
    lemma_distinct_lookup(members, 2);
    lemma_distinct_lookup(members, 3);
    let k: int = if c.license is Some {
        5
    } else {
        4
    };
    lemma_distinct_lookup(members, k);
    reveal_strlit("type");
    reveal_strlit("bom-ref");
    reveal_strlit("name");
    reveal_strlit("version");
    reveal_strlit("licenses");
    reveal_strlit("purl");
    reveal_strlit("hashes");
    reveal_strlit("expression");
    reveal_strlit("license");
    reveal_strlit("id");
    reveal_strlit("alg");
    reveal_strlit("content");
    assert("licenses"@.len() == 8 && "hashes"@.len() == 6);
    assert("type"@.len() == 4 && "name"@.len() == 4 && "purl"@.len() == 4);
    assert("bom-ref"@.len() == 7 && "version"@.len() == 7);
    if c.license is Some {
        lemma_distinct_lookup(members, 4);
        let l = c.license->Some_0;
        reveal_with_fuel(lookup, 2);
    } else {
        assert forall|i: int| 0 <= i < members.len() implies #[trigger] members[i].0
            != "licenses"@ by {}
        crate::json::lemma_distinct_absent(members, "licenses"@);
    }
    match sha512_hex(c.integrity) {
        Some(hex) => {
            lemma_distinct_lookup(members, k + 1);
            let item = cyclonedx_hashes(c.integrity)->Some_0->Array_0[0];
            assert("alg"@.len() == 3 && "content"@.len() == 7);
            reveal_with_fuel(lookup, 3);
        },
        None => {
            assert forall|i: int| 0 <= i < members.len() implies #[trigger] members[i].0
                != "hashes"@ by {}
            crate::json::lemma_distinct_absent(members, "hashes"@);
        },
    }
}

/// A CycloneDX document names the application that it is for, and the time where it is given one.
pub proof fn cyclonedx_names_the_application(
    components: Seq<ComponentView>,
    app_name: Seq<char>,
    app_version: Seq<char>,
    timestamp: Option<Seq<char>>,
)
    ensures
        cyclonedx_document(components, app_name, app_version, timestamp).get(
            "metadata"@,
        ) matches Some(metadata) && (metadata.get("component"@) matches Some(app) && app.get(
            "name"@,
        ) == Some(JsonView::Str(app_name)) && app.get("version"@) == Some(
            JsonView::Str(app_version),
        )) && match timestamp {
            Some(ts) => metadata.get("timestamp"@) == Some(JsonView::Str(ts)),
            None => metadata.get("timestamp"@) is None,
        },
{
    cyclonedx_is_tidy(components, app_name, app_version, timestamp);
    let doc = cyclonedx_document(components, app_name, app_version, timestamp);
    let members = doc->Object_0;
    lemma_distinct_lookup(members, 3);
    let metadata = members[3].1;
    assert(is_plain(metadata));
    let fields = metadata->Object_0;
    let k: int = if timestamp is Some {
        2
    } else {
        1
    };
    lemma_distinct_lookup(fields, k);
    let app = fields[k].1;
    assert(is_plain(app));
    lemma_distinct_lookup(app->Object_0, 2);
    lemma_distinct_lookup(app->Object_0, 3);
    if timestamp is Some {
        lemma_distinct_lookup(fields, 0);
    } else {
        reveal_strlit("timestamp");
        reveal_strlit("tools");
        assert("timestamp"@.len() == 9 && "tools"@.len() == 5);
        reveal_strlit("component");
        assert("timestamp"@[0] == 't' && "component"@[0] == 'c');
        assert forall|i: int| 0 <= i < fields.len() implies #[trigger] fields[i].0
            != "timestamp"@ by {}
        crate::json::lemma_distinct_absent(fields, "timestamp"@);
    }
}

/// Whether a package of an SPDX document says what a component is.
pub open spec fn spdx_entry_says(entry: JsonView, c: ComponentView) -> bool {
    &&& entry.get("SPDXID"@) == Some(
        JsonView::Str("SPDXRef-Package-"@ + id_fragment(c.name) + "-"@ + id_fragment(c.version)),
    )
    &&& entry.get("filesAnalyzed"@) == Some(JsonView::Bool(false))
    &&& entry.get("name"@) == Some(JsonView::Str(c.name))
    &&& entry.get("versionInfo"@) == Some(JsonView::Str(c.version))
    &&& entry.get("downloadLocation"@) == Some(
        JsonView::Str(
            match c.resolved {
                Some(url) => url,
                None => "NOASSERTION"@,
            },
        ),
    )
    &&& entry.get("licenseDeclared"@) == Some(
        JsonView::Str(
            match c.license {
                Some(license) => license,
                None => "NOASSERTION"@,
            },
        ),
    )
    &&& entry.get("externalRefs"@) matches Some(JsonView::Array(refs)) && refs.len() == 1
        && refs[0].get("referenceType"@) == Some(JsonView::Str("purl"@)) && refs[0].get(
        "referenceLocator"@,
    ) == Some(JsonView::Str(c.purl))
    &&& match sha512_hex(c.integrity) {
        Some(hex) => entry.get("checksums"@) matches Some(JsonView::Array(items)) && items.len()
            == 1 && items[0].get("algorithm"@) == Some(JsonView::Str("SHA512"@)) && items[0].get(
            "checksumValue"@,
        ) == Some(JsonView::Str(hex)),
        None => entry.get("checksums"@) is None,
    }
}

/// An SPDX document has a package for each component, at its place, with just its name, version,
/// source, package URL and license.
pub proof fn spdx_lists_each_component(
    components: Seq<ComponentView>,
    name: Seq<char>,
    namespace: Seq<char>,
    created: Seq<char>,
)
    ensures
        ({
            let doc = spdx_document(components, name, namespace, created);
            &&& doc.get("spdxVersion"@) == Some(JsonView::Str("SPDX-2.3"@))
            &&& doc.get("name"@) == Some(JsonView::Str(name))
            &&& doc.get("documentNamespace"@) == Some(JsonView::Str(namespace))
            &&& doc.get("creationInfo"@) matches Some(info) && info.get("created"@) == Some(
                JsonView::Str(created),
            )
            &&& doc.get("packages"@) matches Some(JsonView::Array(entries)) && entries.len()
                == components.len() && forall|i: int|
                0 <= i < components.len() ==> spdx_entry_says(#[trigger] entries[i], components[i])
        }),
{
    spdx_is_tidy(components, name, namespace, created);
    let doc = spdx_document(components, name, namespace, created);
    let members = doc->Object_0;
    assert(is_plain(doc));
    lemma_distinct_lookup(members, 0);
    lemma_distinct_lookup(members, 3);
    lemma_distinct_lookup(members, 4);
    lemma_distinct_lookup(members, 5);
    lemma_distinct_lookup(members, 6);
    assert(is_plain(members[5].1));
    lemma_distinct_lookup(members[5].1->Object_0, 0);
    let entries = members[6].1->Array_0;
    assert(is_plain(members[6].1));
    assert forall|i: int| 0 <= i < components.len() implies spdx_entry_says(
        #[trigger] entries[i],
        components[i],
    ) by {
        assert(is_plain(entries[i]));
        lemma_spdx_entry(components[i]);
    }
}

proof fn lemma_spdx_entry(c: ComponentView)
    requires
        is_plain(spdx_package()(c)),
    ensures
        spdx_entry_says(spdx_package()(c), c),
{
    let entry = spdx_package()(c);
    let members = entry->Object_0;
    lemma_distinct_lookup(members, 0);
    lemma_distinct_lookup(members, 1);
    lemma_distinct_lookup(members, 2);
    lemma_distinct_lookup(members, 3);
    lemma_distinct_lookup(members, 4);
    lemma_distinct_lookup(members, 6);
    lemma_distinct_lookup(members, 8);
    let refs = members[8].1;
    assert(is_plain(refs));
    assert(is_plain(refs->Array_0[0]));
    lemma_distinct_lookup(refs->Array_0[0]->Object_0, 1);
    lemma_distinct_lookup(refs->Array_0[0]->Object_0, 2);
    match sha512_hex(c.integrity) {
        Some(hex) => {
            lemma_distinct_lookup(members, 9);
            let sums = members[9].1;
            assert(is_plain(sums));
            assert(is_plain(sums->Array_0[0]));
            lemma_distinct_lookup(sums->Array_0[0]->Object_0, 0);
            lemma_distinct_lookup(sums->Array_0[0]->Object_0, 1);
        },
        None => {
            lemma_no_checksums();
            assert forall|i: int| 0 <= i < members.len() implies #[trigger] members[i].0
                != "checksums"@ by {}
            crate::json::lemma_distinct_absent(members, "checksums"@);
        },
    }
}

proof fn lemma_no_checksums()
    ensures
        "checksums"@ != "SPDXID"@,
        "checksums"@ != "name"@,
        "checksums"@ != "versionInfo"@,
        "checksums"@ != "downloadLocation"@,
        "checksums"@ != "filesAnalyzed"@,
        "checksums"@ != "licenseConcluded"@,
        "checksums"@ != "licenseDeclared"@,
        "checksums"@ != "copyrightText"@,
        "checksums"@ != "externalRefs"@,
{
    reveal_strlit("checksums");
    reveal_strlit("SPDXID");
    reveal_strlit("name");
    reveal_strlit("versionInfo");
    reveal_strlit("downloadLocation");
    reveal_strlit("filesAnalyzed");
    reveal_strlit("licenseConcluded");
    reveal_strlit("licenseDeclared");
    reveal_strlit("copyrightText");
    reveal_strlit("externalRefs");
    assert("checksums"@.len() == 9);
    assert("SPDXID"@.len() == 6 && "name"@.len() == 4 && "versionInfo"@.len() == 11
        && "downloadLocation"@.len() == 16 && "filesAnalyzed"@.len() == 13
        && "licenseConcluded"@.len() == 16 && "licenseDeclared"@.len() == 15
        && "copyrightText"@.len() == 13 && "externalRefs"@.len() == 12);
}

/// A package that a lockfile pins stands in the bill with its own name, version, license, source
/// and integrity; its package URL has the `@` of a scope as `%40`.
pub proof fn a_locked_package_is_a_component(packages: Seq<LockedView>, i: int)
    requires
        0 <= i < packages.len(),
        "node_modules/"@.is_prefix_of(packages[i].key),
        !packages[i].link,
    ensures
        exists|k: int|
            0 <= k < components_of(packages).len() && ({
                let c = #[trigger] components_of(packages)[k];
                let p = packages[i];
                &&& c.name == p.name
                &&& c.version == p.version
                &&& c.license == p.license
                &&& c.resolved == p.resolved
                &&& c.integrity == p.integrity
                &&& c.purl == "pkg:npm/"@ + (if p.name.len() > 0 && p.name[0] == '@' {
                    "%40"@ + p.name.skip(1)
                } else {
                    p.name
                }) + "@"@ + p.version
            }),
{
    crate::sbom::a_bill_lists_the_locked_packages(packages);
    let bill = components_of(packages);
    let c = component_of()(packages[i]);
    assert(bill.contains(c));
    let k = choose|k: int| 0 <= k < bill.len() && bill[k] == c;
    reveal_strlit("@");
    let name = packages[i].name;
    assert("@"@ =~= seq!['@']);
    if name.len() > 0 && name[0] == '@' {
        assert("@"@ =~= name.subrange(0, "@"@.len() as int));
    }
    if "@"@.is_prefix_of(name) {
        assert(name.subrange(0, "@"@.len() as int)[0] == "@"@[0]);
    }
    assert(bill[k].name == name);
}

/// A component of a bill is a package that the lockfile pins, and no link.
pub proof fn a_component_is_a_locked_package(packages: Seq<LockedView>, k: int)
    requires
        0 <= k < components_of(packages).len(),
    ensures
        exists|i: int|
            0 <= i < packages.len() && "node_modules/"@.is_prefix_of((#[trigger] packages[i]).key)
                && !packages[i].link && components_of(packages)[k].name == packages[i].name
                && components_of(packages)[k].version == packages[i].version
                && components_of(packages)[k].license == packages[i].license,
{
    crate::sbom::a_bill_lists_the_locked_packages(packages);
    let c = components_of(packages)[k];
    assert(crate::sbom::stems_from(c, packages));
}

/// A digest in hexadecimal notation has two digits for each byte, the higher first.
pub proof fn each_byte_has_two_digits(bytes: Seq<u8>)
    ensures
        hex_of(bytes).len() == 2 * bytes.len(),
        forall|i: int|
            0 <= i < bytes.len() ==> hex_of(bytes)[2 * i] == digit(((#[trigger] bytes[i]) / 16) as nat)
                && hex_of(bytes)[2 * i + 1] == digit((bytes[i] % 16) as nat),
    decreases bytes.len(),
{
    if bytes.len() > 0 {
        let front = bytes.drop_last();
        each_byte_has_two_digits(front);
        assert forall|i: int| 0 <= i < bytes.len() implies hex_of(bytes)[2 * i] == digit(
            ((#[trigger] bytes[i]) / 16) as nat,
        ) && hex_of(bytes)[2 * i + 1] == digit((bytes[i] % 16) as nat) by {
            if i < front.len() {
                assert(front[i] == bytes[i]);
            }
        }
    }
}

/// The digest of a component is that of its integrity, where that is of sha512.
pub proof fn a_digest_is_that_of_the_integrity(text: Seq<char>)
    ensures
        sha512_hex(Some("sha512-"@ + text)) == match base64_reading(text) {
            Ok(bytes) => Some(hex_of(bytes)),
            Err(_) => None,
        },
        sha512_hex(None) is None,
{
    let sri = "sha512-"@ + text;
    assert("sha512-"@ =~= sri.subrange(0, "sha512-"@.len() as int));
    assert(sri.skip("sha512-"@.len() as int) =~= text);
}

/// Each component stands in a summary under the license that it declares, by its name and version,
/// and under `NOASSERTION` where it declares none.
pub proof fn each_component_is_summed_up(
    components: Seq<ComponentView>,
    groups: Seq<(Seq<char>, Seq<Seq<char>>)>,
    i: int,
)
    requires
        is_summary(components, groups),
        0 <= i < components.len(),
    ensures
        exists|k: int|
            0 <= k < groups.len() && (#[trigger] groups[k]).0 == (match components[i].license {
                Some(license) => license,
                None => "NOASSERTION"@,
            }) && groups[k].1.contains(components[i].name + "@"@ + components[i].version),
{
    let license = license_key(components[i]);
    reveal(crate::sbom::is_declared);
    reveal(is_listed);
    assert(crate::sbom::is_declared(components, license));
    assert(is_listed(groups, license));
    let k = choose|k: int| 0 <= k < groups.len() && (#[trigger] groups[k]).0 == license;
    let kept = components.filter(listed_under(license));
    components.lemma_filter_contains(listed_under(license), i);
    let j = choose|j: int| 0 <= j < kept.len() && kept[j] == components[i];
    let labels = kept.map_values(label_of());
    assert(labels[j] == components[i].name + "@"@ + components[i].version);
    sorting_is_stable::<String>(labels);
    assert(labels.contains(labels[j]));
    lemma_same_values(labels, labels_under(components, license), labels[j]);
}

/// Each label in a summary is that of a component which declares the license of its group.
pub proof fn each_label_is_of_a_component(
    components: Seq<ComponentView>,
    groups: Seq<(Seq<char>, Seq<Seq<char>>)>,
    k: int,
    label: Seq<char>,
)
    requires
        is_summary(components, groups),
        0 <= k < groups.len(),
        groups[k].1.contains(label),
    ensures
        exists|i: int|
            0 <= i < components.len() && label == (#[trigger] components[i]).name + "@"@
                + components[i].version && groups[k].0 == (match components[i].license {
                Some(license) => license,
                None => "NOASSERTION"@,
            }),
{
    let license = groups[k].0;
    let kept = components.filter(listed_under(license));
    let labels = kept.map_values(label_of());
    assert(groups[k].1 == labels_under(components, license));
    sorting_is_stable::<String>(labels);
    lemma_same_values(labels_under(components, license), labels, label);
    let j = choose|j: int| 0 <= j < labels.len() && labels[j] == label;
    components.lemma_filter_pred(listed_under(license), j);
    components.lemma_filter_contains_rev(listed_under(license), kept[j]);
    let i = choose|i: int| 0 <= i < components.len() && components[i] == kept[j];
    assert(components[i].name + "@"@ + components[i].version == label);
}

/// What may stand in an SPDX id stays, and everything else is a hyphen there.
pub proof fn an_id_keeps_what_may_stand_there(s: Seq<char>, i: int)
    requires
        0 <= i < s.len(),
    ensures
        id_fragment(s).len() == s.len(),
        id_fragment(s)[i] == if 'a' <= s[i] <= 'z' || 'A' <= s[i] <= 'Z' || '0' <= s[i] <= '9'
            || s[i] == '.' || s[i] == '-' {
            s[i]
        } else {
            '-'
        },
{
}

/// Each group of a summary has a line for its license and the number of its packages, behind an
/// empty line, and one for each of these.
pub proof fn each_group_has_its_lines(
    groups: Seq<(Seq<char>, Seq<Seq<char>>)>,
    license: Seq<char>,
    labels: Seq<Seq<char>>,
    label: Seq<char>,
)
    ensures
        group_lines(groups.push((license, labels))) == group_lines(groups) + "\n"@ + license
            + " ("@ + crate::text::decimal_of(labels.len()) + ")\n"@ + label_lines(labels),
        label_lines(labels.push(label)) == label_lines(labels) + "  "@ + label + "\n"@,
        group_lines(Seq::empty()).len() == 0,
        label_lines(Seq::empty()).len() == 0,
{
    assert(groups.push((license, labels)).drop_last() =~= groups);
    assert(labels.push(label).drop_last() =~= labels);
}

} // verus!
