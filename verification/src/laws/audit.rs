//! What an audit asks, reads and reports.

use crate::audit::advisory::{
    deduped, first_same, id_key, is_same, is_shared_id, keys_of, merged, AdvisoryView,
};
use crate::audit::cvss::{cvss_severity, exponent, fraction};
use crate::audit::npm::{
    bulk_advisories, ghsa_in, id_prefix, npm_advisories, npm_advisory, versions_by_name,
};
use crate::audit::render::{
    advisories_lines, advisory_document, advisory_lines, counts_document, finding_on,
    findings_lines, name_document, names_document, names_of, report_document, text_items,
    versions_of,
};
use crate::audit::report::{
    all_advisories, counts, findings_are_complete, findings_are_sound, sorted_findings, FindingView,
    Vulnerabilities,
};
use crate::audit::{
    answered, failed_answers, good_answers, severity_named, severity_rank, severity_word,
    AnswerView, Severity,
};
use crate::json::{
    distinct_members, lemma_distinct_lookup, lookup, optional_member, text_json, texts_of, JsonView,
    NumberView,
};
use crate::package_json::spec::{range_accepts, range_of};
use crate::sbom::ComponentView;
use crate::sort::{sorted_set, sorted_sets_are_sorted};
use crate::text::{find, lowered, occurs_at, split_on, trimmed, uppered};
use crate::version::semver_version;
use vstd::arithmetic::power2::pow2;
use vstd::prelude::*;
use vstd::string::*;

verus! {

/// Every installed version is asked for under its name.
pub proof fn each_version_is_asked_for(components: Seq<ComponentView>, i: int)
    requires
        0 <= i < components.len(),
    ensures
        JsonView::Object(versions_by_name(components)).get(components[i].name) matches Some(
            JsonView::Array(items),
        ) && items.contains(JsonView::Str(components[i].version)),
    decreases components.len(),
{
    let front = components.drop_last();
    let before = versions_by_name(front);
    let last = components.last();
    let name = components[i].name;
    lemma_versions_are_lists(front, last.name);
    if i < front.len() {
        assert(front[i] == components[i]);
        each_version_is_asked_for(front, i);
    }
    match lookup(before, last.name) {
        None => {
            let list = seq![JsonView::Str(last.version)];
            crate::json::lemma_with_member(before, last.name, JsonView::Array(list), name);
            assert(list[0] == JsonView::Str(last.version));
        },
        Some(JsonView::Array(items)) => {
            let list = items.push(JsonView::Str(last.version));
            crate::json::lemma_with_member(before, last.name, JsonView::Array(list), name);
            assert(list[items.len() as int] == JsonView::Str(last.version));
            if i < front.len() && name == last.name {
                let k = choose|k: int|
                    0 <= k < items.len() && items[k] == JsonView::Str(components[i].version);
                assert(list[k] == JsonView::Str(components[i].version));
            }
        },
        Some(_) => {},
    }
}

/// Whether an item is the version of a component of this name.
pub open spec fn is_installed(
    components: Seq<ComponentView>,
    name: Seq<char>,
    item: JsonView,
) -> bool {
    exists|i: int|
        0 <= i < components.len() && (#[trigger] components[i]).name == name && item
            == JsonView::Str(components[i].version)
}

proof fn lemma_versions_are_lists(components: Seq<ComponentView>, name: Seq<char>)
    ensures
        match lookup(versions_by_name(components), name) {
            Some(v) => v matches JsonView::Array(items) && forall|k: int|
                0 <= k < items.len() ==> is_installed(components, name, #[trigger] items[k]),
            None => true,
        },
    decreases components.len(),
{
    if components.len() > 0 {
        let front = components.drop_last();
        let before = versions_by_name(front);
        let last = components.last();
        lemma_versions_are_lists(front, name);
        lemma_versions_are_lists(front, last.name);
        match lookup(before, last.name) {
            None => {
                let list = seq![JsonView::Str(last.version)];
                crate::json::lemma_with_member(before, last.name, JsonView::Array(list), name);
            },
            Some(JsonView::Array(items)) => {
                let list = items.push(JsonView::Str(last.version));
                crate::json::lemma_with_member(before, last.name, JsonView::Array(list), name);
            },
            Some(_) => {},
        }
        if let Some(JsonView::Array(items)) = lookup(versions_by_name(components), name) {
            assert forall|k: int| 0 <= k < items.len() implies is_installed(
                components,
                name,
                #[trigger] items[k],
            ) by {
                if items[k] == JsonView::Str(last.version) && name == last.name {
                    assert(components[components.len() - 1].name == name);
                } else {
                    let old = lookup(before, name)->Some_0->Array_0;
                    assert(items[k] == old[k]);
                    assert(is_installed(front, name, old[k]));
                    let i = choose|i: int|
                        0 <= i < front.len() && (#[trigger] front[i]).name == name && old[k]
                            == JsonView::Str(front[i].version);
                    assert(components[i] == front[i]);
                }
            }
        }
    }
}

/// No version is asked for but those that are installed.
pub proof fn only_installed_versions_are_asked_for(
    components: Seq<ComponentView>,
    name: Seq<char>,
    items: Seq<JsonView>,
    k: int,
)
    requires
        JsonView::Object(versions_by_name(components)).get(name) == Some(JsonView::Array(items)),
        0 <= k < items.len(),
    ensures
        exists|i: int|
            0 <= i < components.len() && (#[trigger] components[i]).name == name && items[k]
                == JsonView::Str(components[i].version),
{
    lemma_versions_are_lists(components, name);
    let found = lookup(versions_by_name(components), name);
    assert(found == Some(JsonView::Array(items)));
    let list = found->Some_0->Array_0;
    assert(list == items);
    assert(is_installed(components, name, list[k]));
}

/// Whether an advisory says what an item of the answer says: of which package it is, what it
/// affects, its title and its URL, and its severity, where a word gives it.
pub open spec fn is_as_answered(a: AdvisoryView, name: Seq<char>, item: JsonView) -> bool {
    &&& a.source == "npm"@
    &&& a.package == name
    &&& match item.get("vulnerable_versions"@) {
        Some(JsonView::Str(range)) => a.vulnerable_range == range,
        _ => a.vulnerable_range.len() == 0,
    }
    &&& match item.get("title"@) {
        Some(JsonView::Str(title)) => a.title == title,
        _ => a.title.len() == 0,
    }
    &&& match item.get("url"@) {
        Some(JsonView::Str(url)) => a.url == Some(url) && match ghsa_in(url) {
            Some(id) => a.id == id && a.aliases == seq![id],
            None => a.aliases.len() == 0 && (item.get("id"@) matches Some(JsonView::Str(id))
                ==> a.id == id),
        },
        _ => a.url is None && a.aliases.len() == 0 && (item.get("id"@) matches Some(
            JsonView::Str(id),
        ) ==> a.id == id),
    }
    &&& match item.get("severity"@) {
        Some(JsonView::Str(word)) => severity_named(word) is Some ==> a.severity == severity_named(
            word,
        ),
        _ => true,
    }
    &&& match item.get("cwe"@) {
        Some(JsonView::Array(items)) => a.cwe == texts_of(items),
        _ => a.cwe.len() == 0,
    }
}

/// Each item that the registry answers for a package is an advisory on that package, and there is
/// no other.
pub proof fn each_item_of_an_answer_is_an_advisory(
    members: Seq<(Seq<char>, JsonView)>,
    i: int,
    items: Seq<JsonView>,
    j: int,
)
    requires
        0 <= i < members.len(),
        members[i].1 == JsonView::Array(items),
        0 <= j < items.len(),
    ensures
        exists|k: int|
            0 <= k < bulk_advisories(JsonView::Object(members)).len() && is_as_answered(
                #[trigger] bulk_advisories(JsonView::Object(members))[k],
                members[i].0,
                items[j],
            ),
{
    let all = bulk_advisories(JsonView::Object(members));
    let a = npm_advisory(members[i].0)(items[j]);
    lemma_item_listed(members, i, items, j);
    let k = choose|k: int| 0 <= k < all.len() && all[k] == a;
    assert(is_as_answered(all[k], members[i].0, items[j]));
}

proof fn lemma_item_listed(
    members: Seq<(Seq<char>, JsonView)>,
    i: int,
    items: Seq<JsonView>,
    j: int,
)
    requires
        0 <= i < members.len(),
        members[i].1 == JsonView::Array(items),
        0 <= j < items.len(),
    ensures
        npm_advisories(members).contains(npm_advisory(members[i].0)(items[j])),
    decreases members.len(),
{
    let all = npm_advisories(members);
    let before = npm_advisories(members.drop_last());
    let a = npm_advisory(members[i].0)(items[j]);
    if i < members.len() - 1 {
        lemma_item_listed(members.drop_last(), i, items, j);
        let k = choose|k: int| 0 <= k < before.len() && before[k] == a;
        assert(all[k] == a);
    } else {
        assert(all[before.len() + j] == a);
    }
}

/// The answer for several packages is what it is for each, one behind the other.
pub proof fn answers_add_up(
    x: Seq<(Seq<char>, JsonView)>,
    y: Seq<(Seq<char>, JsonView)>,
)
    ensures
        bulk_advisories(JsonView::Object(x + y)) == bulk_advisories(JsonView::Object(x))
            + bulk_advisories(JsonView::Object(y)),
    decreases y.len(),
{
    if y.len() == 0 {
        assert(x + y =~= x);
        assert(npm_advisories(x) + npm_advisories(y) =~= npm_advisories(x));
    } else {
        answers_add_up(x, y.drop_last());
        assert((x + y).drop_last() =~= x + y.drop_last());
        assert(npm_advisories(x + y) =~= npm_advisories(x) + npm_advisories(y));
    }
}

/// The answer for one package has as many advisories as items, and none where it is no array.
pub proof fn an_answer_has_an_advisory_for_each_item(name: Seq<char>, value: JsonView)
    ensures
        bulk_advisories(JsonView::Object(seq![(name, value)])).len() == match value {
            JsonView::Array(items) => items.len(),
            _ => 0,
        },
        bulk_advisories(JsonView::Object(Seq::empty())).len() == 0,
{
    let one = seq![(name, value)];
    assert(one.drop_last() =~= Seq::<(Seq<char>, JsonView)>::empty());
    reveal_with_fuel(npm_advisories, 2);
}

/// Whether a character may stand in an id.
pub open spec fn is_id_char(c: char) -> bool {
    'a' <= c <= 'z' || 'A' <= c <= 'Z' || '0' <= c <= '9' || c == '-'
}

/// The id of an advisory is what stands in its URL behind the first `/advisories/`, where that
/// begins with `GHSA-`.
pub proof fn an_id_stands_in_the_url(start: Seq<char>, id: Seq<char>, rest: Seq<char>)
    requires
        forall|i: int|
            0 <= i < start.len() ==> !(#[trigger] occurs_at(
                start + "/advisories/"@ + id + rest,
                "/advisories/"@,
                i,
            )),
        "GHSA-"@.is_prefix_of(id),
        forall|i: int| 0 <= i < id.len() ==> is_id_char(#[trigger] id[i]),
        rest.len() > 0 ==> !is_id_char(rest[0]),
    ensures
        ghsa_in(start + "/advisories/"@ + id + rest) == Some(id),
{
    let sep = "/advisories/"@;
    let url = start + sep + id + rest;
    reveal_strlit("/advisories/");
    assert(sep.len() == 12);
    assert(sep[0] == '/');
    crate::text::lemma_find_from(url, sep, 0);
    assert(url.subrange(start.len() as int, (start.len() + 12) as int) =~= sep);
    assert(occurs_at(url, sep, start.len() as int));
    let at = find(url, sep)->Some_0;
    assert(at == start.len());
    let tail = url.skip(at + 12);
    assert(tail =~= id + rest);
    reveal_with_fuel(split_on, 2);
    crate::text::lemma_find_from(tail, sep, 0);
    let pieces = split_on(url, sep);
    match find(tail, sep) {
        Some(n) => {
            if n < id.len() {
                assert(tail.subrange(n, n + 12)[0] == id[n]);
            }
            let first = tail.take(n);
            assert(split_on(tail, sep)[0] == first);
            assert(pieces[1] == first);
            assert(first =~= id + first.skip(id.len() as int));
            if first.len() > id.len() {
                assert(first[id.len() as int] == rest[0]);
            }
            lemma_id_prefix(id, first.skip(id.len() as int));
        },
        None => {
            assert(pieces[1] == tail);
            lemma_id_prefix(id, rest);
        },
    }
}

proof fn lemma_id_prefix(id: Seq<char>, rest: Seq<char>)
    requires
        forall|i: int| 0 <= i < id.len() ==> is_id_char(#[trigger] id[i]),
        rest.len() > 0 ==> !is_id_char(rest[0]),
    ensures
        id_prefix(id + rest) == id,
    decreases id.len(),
{
    if id.len() == 0 {
        assert(id + rest =~= rest);
        assert(id_prefix(rest) =~= id);
    } else {
        let more = id.drop_first();
        assert forall|i: int| 0 <= i < more.len() implies is_id_char(#[trigger] more[i]) by {
            assert(more[i] == id[i + 1]);
        }
        lemma_id_prefix(more, rest);
        assert((id + rest).drop_first() =~= more + rest);
        assert((id + rest)[0] == id[0]);
        assert(is_id_char(id[0]));
        assert(seq![id[0]] + more =~= id);
    }
}

/// The word of a severity names it, in any case and with white space around it; `medium` is
/// another word for moderate.
pub proof fn a_severity_is_named_by_its_word(severity: Severity, text: Seq<char>)
    requires
        lowered(trimmed(text)) == severity_word(severity) || (severity == Severity::Moderate
            && lowered(trimmed(text)) == "medium"@),
    ensures
        severity_named(text) == Some(severity),
{
    reveal_strlit("low");
    reveal_strlit("moderate");
    reveal_strlit("medium");
    reveal_strlit("high");
    reveal_strlit("critical");
    assert("low"@.len() == 3 && "moderate"@.len() == 8 && "medium"@.len() == 6 && "high"@.len()
        == 4 && "critical"@.len() == 8);
    assert("moderate"@[0] == 'm' && "critical"@[0] == 'c');
}

/// A word that is none of these names no severity.
pub proof fn other_words_name_no_severity(text: Seq<char>)
    requires
        forall|severity: Severity|
            lowered(trimmed(text)) != #[trigger] severity_word(severity),
        lowered(trimmed(text)) != "medium"@,
    ensures
        severity_named(text) is None,
{
    assert(lowered(trimmed(text)) != severity_word(Severity::Low));
    assert(lowered(trimmed(text)) != severity_word(Severity::Moderate));
    assert(lowered(trimmed(text)) != severity_word(Severity::High));
    assert(lowered(trimmed(text)) != severity_word(Severity::Critical));
}

/// The severities go up from low over moderate and high to critical.
pub proof fn severities_go_up()
    ensures
        severity_rank(Severity::Low) < severity_rank(Severity::Moderate),
        severity_rank(Severity::Moderate) < severity_rank(Severity::High),
        severity_rank(Severity::High) < severity_rank(Severity::Critical),
        severity_word(Severity::Low) == "low"@,
        severity_word(Severity::Moderate) == "moderate"@,
        severity_word(Severity::High) == "high"@,
        severity_word(Severity::Critical) == "critical"@,
{
}

/// A score is severe by the number that it is: low above zero, moderate from four on, high from
/// seven on, and critical from nine on. Its binary notation has eleven bits of exponent before
/// fifty-two of fraction.
pub proof fn scores_are_severe_by_number(bits: u64)
    requires
        bits <= 0x7ff0_0000_0000_0000,
    ensures
        ({
            let e = bits as nat / 0x10_0000_0000_0000;
            let f = bits as nat % 0x10_0000_0000_0000;
            let m = if e == 0 {
                f
            } else {
                (0x10_0000_0000_0000 + f) * pow2((e - 1) as nat)
            };
            &&& m == 0 ==> cvss_severity(bits) is None
            &&& 0 < m < 4 * pow2(1074) ==> cvss_severity(bits) == Some(Severity::Low)
            &&& 4 * pow2(1074) <= m < 7 * pow2(1074) ==> cvss_severity(bits) == Some(
                Severity::Moderate,
            )
            &&& 7 * pow2(1074) <= m < 9 * pow2(1074) ==> cvss_severity(bits) == Some(Severity::High)
            &&& 9 * pow2(1074) <= m ==> cvss_severity(bits) == Some(Severity::Critical)
        }),
{
    let one: nat = 0x10_0000_0000_0000;
    assert((bits as nat) / one <= 2047);
    assert(exponent(bits) == bits as nat / one);
    assert(exponent(bits) == 2047 ==> fraction(bits) == 0);
    vstd::arithmetic::power2::lemma_pow2_pos(1074);
    assert(4 * pow2(1074) < 7 * pow2(1074) && 7 * pow2(1074) < 9 * pow2(1074)) by (nonlinear_arith)
        requires
            pow2(1074) > 0,
    ;
}

/// A score below zero is of no severity.
pub proof fn scores_below_zero_do_not_count(bits: u64)
    requires
        0x8000_0000_0000_0000 <= bits <= 0xfff0_0000_0000_0000,
    ensures
        cvss_severity(bits) is None,
{
    let one: nat = 0x10_0000_0000_0000;
    assert((bits as nat) / one <= 4095);
    assert(exponent(bits) == 2047 ==> fraction(bits) == 0);
}

/// Each installed package that an advisory is on, and whose version is in its range, is found, and
/// the advisory is reported for it.
pub proof fn what_is_affected_is_reported(
    advisories: Seq<AdvisoryView>,
    components: Seq<ComponentView>,
    i: int,
    j: int,
)
    requires
        0 <= i < components.len(),
        0 <= j < advisories.len(),
        advisories[j].package == components[i].name,
        semver_version(components[i].version) is Ok,
        range_of(advisories[j].vulnerable_range) is Ok,
        range_accepts(
            range_of(advisories[j].vulnerable_range)->Ok_0,
            semver_version(components[i].version)->Ok_0,
        ),
    ensures
        exists|k: int, h: int|
            0 <= k < sorted_findings(advisories, components).len() && 0 <= h < sorted_findings(
                advisories,
                components,
            )[k].advisories.len() && is_reported(
                #[trigger] sorted_findings(advisories, components)[k].component,
                #[trigger] sorted_findings(advisories, components)[k].advisories[h],
                components[i],
                advisories[j],
            ),
{
    let c = components[i];
    let a = advisories[j];
    assert(components.contains(c));
    assert(advisories.contains(a));
    let k = findings_are_complete(advisories, components, c, a);
    let f = sorted_findings(advisories, components)[k];
    let found = AdvisoryView { matched_version: c.version, ..a };
    assert(crate::audit::report::as_found(a, c) == found);
    let h = choose|h: int| 0 <= h < f.advisories.len() && f.advisories[h] == found;
    assert(is_reported(f.component, f.advisories[h], c, a));
}

/// Whether a package and an advisory of a report are this package and this advisory.
pub open spec fn is_reported(
    component: ComponentView,
    found: AdvisoryView,
    c: ComponentView,
    a: AdvisoryView,
) -> bool {
    &&& component.name == c.name
    &&& component.version == c.version
    &&& found.id == a.id
    &&& found.source == a.source
    &&& found.package == a.package
    &&& found.vulnerable_range == a.vulnerable_range
    &&& found.severity == a.severity
    &&& found.title == a.title
    &&& found.matched_version == c.version
}

/// Each advisory of a report is on an installed package, and its range holds the version of that.
pub proof fn what_is_reported_is_affected(
    advisories: Seq<AdvisoryView>,
    components: Seq<ComponentView>,
    k: int,
    h: int,
)
    requires
        0 <= k < sorted_findings(advisories, components).len(),
        0 <= h < sorted_findings(advisories, components)[k].advisories.len(),
    ensures
        ({
            let f = sorted_findings(advisories, components)[k];
            let found = f.advisories[h];
            &&& components.contains(f.component)
            &&& found.package == f.component.name
            &&& found.matched_version == f.component.version
            &&& semver_version(f.component.version) matches Ok(version) && (range_of(
                found.vulnerable_range,
            ) matches Ok(range) && range_accepts(range, version))
        }),
{
    findings_are_sound(advisories, components);
    let f = sorted_findings(advisories, components)[k];
    assert(f.advisories.contains(f.advisories[h]));
    assert(sorted_findings(advisories, components)[k].advisories.contains(f.advisories[h]));
}

/// Each advisory counts once, under its own severity.
pub proof fn each_advisory_counts_once(v: Vulnerabilities, all: Seq<AdvisoryView>)
    requires
        counts(v, all),
        all.len() <= u64::MAX,
    ensures
        v.total == all.len(),
        v.info == all.filter(|a: AdvisoryView| a.severity is None).len(),
        v.low == all.filter(|a: AdvisoryView| a.severity == Some(Severity::Low)).len(),
        v.moderate == all.filter(|a: AdvisoryView| a.severity == Some(Severity::Moderate)).len(),
        v.high == all.filter(|a: AdvisoryView| a.severity == Some(Severity::High)).len(),
        v.critical == all.filter(|a: AdvisoryView| a.severity == Some(Severity::Critical)).len(),
        v.info + v.low + v.moderate + v.high + v.critical == v.total,
{
    lemma_counts(all);
}

proof fn lemma_counts(all: Seq<AdvisoryView>)
    ensures
        ({
            let n = |s: Option<Severity>| all.filter(crate::audit::report::of_severity(s)).len();
            &&& n(None) == all.filter(|a: AdvisoryView| a.severity is None).len()
            &&& n(Some(Severity::Low)) == all.filter(
                |a: AdvisoryView| a.severity == Some(Severity::Low),
            ).len()
            &&& n(Some(Severity::Moderate)) == all.filter(
                |a: AdvisoryView| a.severity == Some(Severity::Moderate),
            ).len()
            &&& n(Some(Severity::High)) == all.filter(
                |a: AdvisoryView| a.severity == Some(Severity::High),
            ).len()
            &&& n(Some(Severity::Critical)) == all.filter(
                |a: AdvisoryView| a.severity == Some(Severity::Critical),
            ).len()
            &&& n(None) + n(Some(Severity::Low)) + n(Some(Severity::Moderate)) + n(
                Some(Severity::High),
            ) + n(Some(Severity::Critical)) == all.len()
        }),
    decreases all.len(),
{
    reveal(Seq::filter);
    if all.len() > 0 {
        lemma_counts(all.drop_last());
        let s = all.last().severity;
        match s {
            None => {},
            Some(Severity::Low) => {},
            Some(Severity::Moderate) => {},
            Some(Severity::High) => {},
            Some(Severity::Critical) => {},
        }
    }
}

/// Advisories of which no two are of the same vulnerability stay as they are.
pub proof fn different_advisories_all_stay(list: Seq<AdvisoryView>)
    requires
        forall|i: int, j: int|
            0 <= i < j < list.len() ==> !is_same(#[trigger] list[i], #[trigger] list[j]),
    ensures
        deduped(list) == list,
    decreases list.len(),
{
    if list.len() > 0 {
        let front = list.drop_last();
        assert forall|i: int, j: int| 0 <= i < j < front.len() implies !is_same(
            #[trigger] front[i],
            #[trigger] front[j],
        ) by {
            assert(!is_same(list[i], list[j]));
        }
        different_advisories_all_stay(front);
        let n = list.len() - 1;
        assert forall|i: int| 0 <= i < front.len() implies !is_same(
            #[trigger] front[i],
            list.last(),
        ) by {
            assert(!is_same(list[i], list[n]));
        }
        lemma_none_same(front, list.last(), 0);
        assert(front.push(list.last()) =~= list);
    }
}

proof fn lemma_none_same(list: Seq<AdvisoryView>, a: AdvisoryView, from: int)
    requires
        0 <= from,
        forall|i: int| 0 <= i < list.len() ==> !is_same(#[trigger] list[i], a),
    ensures
        first_same(list, a, from) is None,
    decreases list.len() - from,
{
    if from < list.len() {
        assert(!is_same(list[from], a));
        lemma_none_same(list, a, from + 1);
    }
}

/// Whether `x` and `y` are the same id in any case, which several sources know.
pub open spec fn is_one_id(x: Seq<char>, y: Seq<char>) -> bool {
    uppered(trimmed(x)) == uppered(trimmed(y)) && ("GHSA-"@.is_prefix_of(uppered(trimmed(x)))
        || "CVE-"@.is_prefix_of(uppered(trimmed(x))))
}

/// Two advisories are of the same vulnerability just where they are on the same package and an id
/// or alias of one is an id or alias of the other, one that several sources know.
pub proof fn a_shared_id_makes_advisories_one(a: AdvisoryView, b: AdvisoryView)
    ensures
        is_same(a, b) <==> a.package == b.package && exists|i: int, j: int|
            -1 <= i < a.aliases.len() && -1 <= j < b.aliases.len() && is_one_id(
                #[trigger] nth_id(a, i),
                #[trigger] nth_id(b, j),
            ),
{
    let p = is_shared_id();
    let xs = (seq![a.id] + a.aliases).map_values(id_key());
    let ys = (seq![b.id] + b.aliases).map_values(id_key());
    if is_same(a, b) {
        let n = choose|n: int|
            0 <= n < keys_of(a).len() && keys_of(b).contains(#[trigger] keys_of(a)[n]);
        let key = keys_of(a)[n];
        xs.lemma_filter_pred(p, n);
        xs.lemma_filter_contains_rev(p, key);
        let i = choose|i: int| 0 <= i < xs.len() && xs[i] == key;
        ys.lemma_filter_contains_rev(p, key);
        let j = choose|j: int| 0 <= j < ys.len() && ys[j] == key;
        assert(is_one_id(nth_id(a, i - 1), nth_id(b, j - 1)));
    }
    if a.package == b.package && exists|i: int, j: int|
        -1 <= i < a.aliases.len() && -1 <= j < b.aliases.len() && is_one_id(
            #[trigger] nth_id(a, i),
            #[trigger] nth_id(b, j),
        ) {
        let (i, j) = choose|i: int, j: int|
            -1 <= i < a.aliases.len() && -1 <= j < b.aliases.len() && is_one_id(
                #[trigger] nth_id(a, i),
                #[trigger] nth_id(b, j),
            );
        assert(xs[i + 1] == ys[j + 1]);
        xs.lemma_filter_contains(p, i + 1);
        ys.lemma_filter_contains(p, j + 1);
        let n = choose|n: int| 0 <= n < keys_of(a).len() && keys_of(a)[n] == xs[i + 1];
        assert(keys_of(b).contains(keys_of(a)[n]));
    }
}

/// The alias of an advisory at a place, with its id before them.
pub open spec fn nth_id(a: AdvisoryView, i: int) -> Seq<char> {
    if i < 0 {
        a.id
    } else {
        a.aliases[i]
    }
}

/// What an advisory lacks it has from the other of its vulnerability, and what it has it keeps.
pub proof fn merging_fills_what_is_missing(into: AdvisoryView, from: AdvisoryView)
    ensures
        ({
            let m = merged(into, from);
            &&& m.severity == if into.severity is Some {
                into.severity
            } else {
                from.severity
            }
            &&& m.url == if into.url is Some {
                into.url
            } else {
                from.url
            }
            &&& m.cvss_score == if into.cvss_score is Some {
                into.cvss_score
            } else {
                from.cvss_score
            }
            &&& m.cvss_vector == if into.cvss_vector is Some {
                into.cvss_vector
            } else {
                from.cvss_vector
            }
            &&& m.cwe == if into.cwe.len() > 0 {
                into.cwe
            } else {
                from.cwe
            }
        }),
{
}

/// The advisories of every source that answered are considered.
pub proof fn each_answer_is_considered(answers: Seq<AnswerView>, i: int, j: int)
    requires
        0 <= i < answers.len(),
        answers[i] is Ok,
        0 <= j < answers[i]->Ok_0.len(),
    ensures
        answered(good_answers(answers)).contains(answers[i]->Ok_0[j]),
    decreases answers.len(),
{
    let front = answers.drop_last();
    let before = good_answers(front);
    let good = good_answers(answers);
    let a = answers[i]->Ok_0[j];
    if let Ok(list) = answers.last() {
        assert(good.drop_last() =~= before);
    }
    if i < front.len() {
        assert(front[i] == answers[i]);
        each_answer_is_considered(front, i, j);
        let k = choose|k: int| 0 <= k < answered(before).len() && answered(before)[k] == a;
        assert(answered(good)[k] == a);
    } else {
        assert(answered(good)[answered(before).len() + j] == a);
    }
}

/// Every source that fails is named, with its message.
pub proof fn each_failure_is_named(labels: Seq<Seq<char>>, answers: Seq<AnswerView>, i: int)
    requires
        0 <= i < answers.len(),
        answers[i] is Err,
    ensures
        failed_answers(labels, answers).contains((labels[i], answers[i]->Err_0)),
    decreases answers.len(),
{
    let front = answers.drop_last();
    let before = failed_answers(labels, front);
    let all = failed_answers(labels, answers);
    let pair = (labels[i], answers[i]->Err_0);
    if i < front.len() {
        assert(front[i] == answers[i]);
        each_failure_is_named(labels, front, i);
        let k = choose|k: int| 0 <= k < before.len() && before[k] == pair;
        assert(all[k] == pair);
    } else {
        assert(all[before.len() as int] == pair);
    }
}

/// The counts of a report stand in its document, each under its own word.
pub proof fn the_document_has_the_counts(v: Vulnerabilities, findings: Seq<FindingView>)
    ensures
        report_document(v, findings).get("metadata"@) matches Some(metadata) && (metadata.get(
            "vulnerabilities"@,
        ) matches Some(numbers) && numbers.get("info"@) == Some(
            JsonView::Number(NumberView::Unsigned(v.info)),
        ) && numbers.get("low"@) == Some(JsonView::Number(NumberView::Unsigned(v.low)))
            && numbers.get("moderate"@) == Some(JsonView::Number(NumberView::Unsigned(v.moderate)))
            && numbers.get("high"@) == Some(JsonView::Number(NumberView::Unsigned(v.high)))
            && numbers.get("critical"@) == Some(JsonView::Number(NumberView::Unsigned(v.critical)))
            && numbers.get("total"@) == Some(JsonView::Number(NumberView::Unsigned(v.total)))),
{
    reveal_strlit("metadata");
    reveal_strlit("vulnerabilities");
    reveal_strlit("info");
    reveal_strlit("low");
    reveal_strlit("moderate");
    reveal_strlit("high");
    reveal_strlit("critical");
    reveal_strlit("total");
    assert("metadata"@.len() == 8 && "vulnerabilities"@.len() == 15);
    assert("info"@.len() == 4 && "low"@.len() == 3 && "moderate"@.len() == 8 && "high"@.len() == 4
        && "critical"@.len() == 8 && "total"@.len() == 5);
    assert("info"@[0] == 'i' && "high"@[0] == 'h' && "moderate"@[0] == 'm' && "critical"@[0]
        == 'c');
    reveal_with_fuel(lookup, 3);
    let numbers = counts_document(v)->Object_0;
    assert(distinct_members(numbers));
    lemma_distinct_lookup(numbers, 0);
    lemma_distinct_lookup(numbers, 1);
    lemma_distinct_lookup(numbers, 2);
    lemma_distinct_lookup(numbers, 3);
    lemma_distinct_lookup(numbers, 4);
    lemma_distinct_lookup(numbers, 5);
}

/// Whether an entry of a document has a version and an advisory on it.
pub open spec fn says_finding(entry: JsonView, version: Seq<char>, a: AdvisoryView) -> bool {
    &&& entry.get("versions"@) matches Some(JsonView::Array(versions)) && versions.contains(
        JsonView::Str(version),
    )
    &&& entry.get("via"@) matches Some(JsonView::Array(via)) && exists|n: int|
        0 <= n < via.len() && says_advisory(#[trigger] via[n], a)
}

/// Each finding stands in the document of a report under the name of its package: its version is
/// among the versions there, and its advisories among those there.
pub proof fn the_document_has_the_findings(
    v: Vulnerabilities,
    findings: Seq<FindingView>,
    k: int,
    h: int,
)
    requires
        0 <= k < findings.len(),
        0 <= h < findings[k].advisories.len(),
    ensures
        report_document(v, findings).get("vulnerabilities"@) matches Some(packages) && (
        packages.get(findings[k].component.name) matches Some(entry) && says_finding(
            entry,
            findings[k].component.version,
            findings[k].advisories[h],
        )),
{
    reveal_strlit("metadata");
    reveal_strlit("vulnerabilities");
    assert("metadata"@.len() == 8 && "vulnerabilities"@.len() == 15);
    let doc = report_document(v, findings)->Object_0;
    crate::laws::json::lemma_lookup_two(doc[0], doc[1], "vulnerabilities"@);
    assert(doc =~= seq![doc[0], doc[1]]);
    let f = findings[k];
    let name = f.component.name;
    let packages = names_document(findings);
    let names = sorted_set(names_of(findings));
    sorted_sets_are_sorted(names_of(findings));
    assert(names_of(findings)[k] == name);
    assert(names.contains(name));
    let n = choose|n: int| 0 <= n < names.len() && names[n] == name;
    assert(distinct_members(packages)) by {
        assert forall|i: int, j: int| 0 <= i < j < packages.len() implies #[trigger] packages[i].0
            != #[trigger] packages[j].0 by {
            assert(names[i] != names[j]);
        }
    }
    lemma_distinct_lookup(packages, n);
    let entry = name_document(findings, name);
    assert(packages[n] == (name, entry));
    lemma_name_document(findings, name);
    let group = findings.filter(finding_on(name));
    findings.lemma_filter_contains(finding_on(name), k);
    let g = choose|g: int| 0 <= g < group.len() && group[g] == f;
    let versions = versions_of(group);
    assert(versions[g] == f.component.version);
    sorted_sets_are_sorted(versions);
    assert(versions.contains(f.component.version));
    let set = sorted_set(versions);
    assert(set.contains(f.component.version));
    let s = choose|s: int| 0 <= s < set.len() && set[s] == f.component.version;
    assert(text_items(set)->Array_0[s] == JsonView::Str(f.component.version));
    let all = all_advisories(group);
    lemma_advisory_listed(group, g, h);
    let m = choose|m: int| 0 <= m < all.len() && all[m] == f.advisories[h];
    let via = all.map_values(advisory_document());
    assert(via[m] == advisory_document()(f.advisories[h]));
    lemma_advisory_document(f.advisories[h]);
    assert(says_advisory(via[m], f.advisories[h]));
    assert(JsonView::Object(packages).get(name) == Some(entry));
    assert(entry.get("via"@) == Some(JsonView::Array(via)));
    assert(entry.get("versions"@) == Some(text_items(set)));
    assert(text_items(set)->Array_0.contains(JsonView::Str(f.component.version)));
    assert(0 <= m < via.len());
    assert(exists|n: int| 0 <= n < via.len() && says_advisory(#[trigger] via[n], f.advisories[h]));
    let listed = entry.get("via"@)->Some_0->Array_0;
    assert(listed == via);
    let versions_listed = entry.get("versions"@)->Some_0->Array_0;
    assert(versions_listed == text_items(set)->Array_0);
    assert(text_items(set) is Array);
    assert(says_finding(entry, f.component.version, f.advisories[h]));
    assert(report_document(v, findings).get("vulnerabilities"@) == Some(
        JsonView::Object(packages),
    ));
}

/// Whether an item of a document says what an advisory is.
pub open spec fn says_advisory(item: JsonView, a: AdvisoryView) -> bool {
    &&& item.get("id"@) == Some(JsonView::Str(a.id))
    &&& item.get("source"@) == Some(JsonView::Str(a.source))
    &&& item.get("title"@) == Some(JsonView::Str(a.title))
    &&& item.get("vulnerable_range"@) == Some(JsonView::Str(a.vulnerable_range))
    &&& match a.severity {
        Some(s) => item.get("severity"@) == Some(JsonView::Str(severity_word(s))),
        None => item.get("severity"@) is None,
    }
    &&& match a.url {
        Some(url) => item.get("url"@) == Some(JsonView::Str(url)),
        None => item.get("url"@) is None,
    }
}

proof fn lemma_advisory_document(a: AdvisoryView)
    ensures
        says_advisory(advisory_document()(a), a),
{
    lemma_advisory_keys();
    lemma_advisory_member(a, "id"@);
    lemma_advisory_member(a, "source"@);
    lemma_advisory_member(a, "title"@);
    lemma_advisory_member(a, "vulnerable_range"@);
    lemma_advisory_member(a, "severity"@);
    lemma_advisory_member(a, "url"@);
}

/// What an advisory as JSON has under a key.
proof fn lemma_advisory_member(a: AdvisoryView, key: Seq<char>)
    requires
        key == "id"@ || key == "source"@ || key == "title"@ || key == "vulnerable_range"@ || key
            == "severity"@ || key == "url"@,
    ensures
        advisory_document()(a).get(key) == if key == "id"@ {
            Some(JsonView::Str(a.id))
        } else if key == "source"@ {
            Some(JsonView::Str(a.source))
        } else if key == "title"@ {
            Some(JsonView::Str(a.title))
        } else if key == "vulnerable_range"@ {
            Some(JsonView::Str(a.vulnerable_range))
        } else if key == "severity"@ {
            match a.severity {
                Some(s) => Some(JsonView::Str(severity_word(s))),
                None => None,
            }
        } else {
            match a.url {
                Some(url) => Some(JsonView::Str(url)),
                None => None,
            }
        },
{
    lemma_advisory_keys();
    let p0 = seq![("source"@, JsonView::Str(a.source)), ("id"@, JsonView::Str(a.id))];
    let v1 = if a.aliases.len() > 0 {
        Some(text_items(a.aliases))
    } else {
        None
    };
    let p2 = seq![
        ("title"@, JsonView::Str(a.title)),
        ("vulnerable_range"@, JsonView::Str(a.vulnerable_range)),
    ];
    let v3 = if a.matched_version.len() > 0 {
        Some(JsonView::Str(a.matched_version))
    } else {
        None
    };
    let v4 = match a.severity {
        Some(s) => Some(JsonView::Str(severity_word(s))),
        None => None,
    };
    let v5 = text_json(a.url);
    let v6 = if a.cwe.len() > 0 {
        Some(text_items(a.cwe))
    } else {
        None
    };
    let v7 = match a.cvss_score {
        Some(score) => Some(JsonView::Number(NumberView::Float(score.notation))),
        None => None,
    };
    let v8 = text_json(a.cvss_vector);
    let s1 = p0 + optional_member("aliases"@, v1);
    let s2 = s1 + p2;
    let s3 = s2 + optional_member("matched_version"@, v3);
    let s4 = s3 + optional_member("severity"@, v4);
    let s5 = s4 + optional_member("url"@, v5);
    let s6 = s5 + optional_member("cwe"@, v6);
    let s7 = s6 + optional_member("cvss_score"@, v7);
    let s8 = s7 + optional_member("cvss_vector"@, v8);
    crate::laws::json::lemma_lookup_optional(p0, "aliases"@, v1, key);
    crate::json::lemma_lookup_concat(s1, p2, key);
    crate::laws::json::lemma_lookup_optional(s2, "matched_version"@, v3, key);
    crate::laws::json::lemma_lookup_optional(s3, "severity"@, v4, key);
    crate::laws::json::lemma_lookup_optional(s4, "url"@, v5, key);
    crate::laws::json::lemma_lookup_optional(s5, "cwe"@, v6, key);
    crate::laws::json::lemma_lookup_optional(s6, "cvss_score"@, v7, key);
    crate::laws::json::lemma_lookup_optional(s7, "cvss_vector"@, v8, key);
    crate::laws::json::lemma_lookup_two(p0[0], p0[1], key);
    crate::laws::json::lemma_lookup_two(p2[0], p2[1], key);
    assert(advisory_document()(a) == JsonView::Object(s8));
}

proof fn lemma_advisory_keys()
    ensures
        "source"@.len() == 6 && "id"@.len() == 2 && "aliases"@.len() == 7 && "title"@.len() == 5
            && "vulnerable_range"@.len() == 16 && "matched_version"@.len() == 15
            && "severity"@.len() == 8 && "url"@.len() == 3 && "cwe"@.len() == 3
            && "cvss_score"@.len() == 10 && "cvss_vector"@.len() == 11,
        "url"@ != "cwe"@,
{
    reveal_strlit("source");
    reveal_strlit("id");
    reveal_strlit("aliases");
    reveal_strlit("title");
    reveal_strlit("vulnerable_range");
    reveal_strlit("matched_version");
    reveal_strlit("severity");
    reveal_strlit("url");
    reveal_strlit("cwe");
    reveal_strlit("cvss_score");
    reveal_strlit("cvss_vector");
    assert("url"@[0] == 'u' && "cwe"@[0] == 'c');
}

proof fn lemma_name_document(findings: Seq<FindingView>, name: Seq<char>)
    ensures
        ({
            let group = findings.filter(finding_on(name));
            let entry = name_document(findings, name);
            &&& entry.get("versions"@) == Some(text_items(sorted_set(versions_of(group))))
            &&& entry.get("via"@) == Some(
                JsonView::Array(all_advisories(group).map_values(advisory_document())),
            )
        }),
{
    reveal_strlit("name");
    reveal_strlit("severity");
    reveal_strlit("versions");
    reveal_strlit("via");
    assert("name"@.len() == 4 && "severity"@.len() == 8 && "versions"@.len() == 8 && "via"@.len()
        == 3);
    assert("severity"@[0] == 's' && "versions"@[0] == 'v');
    let members = name_document(findings, name)->Object_0;
    assert(distinct_members(members));
    lemma_distinct_lookup(members, 2);
    lemma_distinct_lookup(members, 3);
}

proof fn lemma_advisory_listed(group: Seq<FindingView>, g: int, h: int)
    requires
        0 <= g < group.len(),
        0 <= h < group[g].advisories.len(),
    ensures
        all_advisories(group).contains(group[g].advisories[h]),
    decreases group.len(),
{
    let front = group.drop_last();
    let before = all_advisories(front);
    let all = all_advisories(group);
    let a = group[g].advisories[h];
    if g < front.len() {
        assert(front[g] == group[g]);
        lemma_advisory_listed(front, g, h);
        let k = choose|k: int| 0 <= k < before.len() && before[k] == a;
        assert(all[k] == a);
    } else {
        assert(all[before.len() + h] == a);
    }
}

/// The lines of a report are those of each finding, one behind the other: an empty line, the name
/// and version of the package, and the lines of its advisories.
pub proof fn the_summary_has_each_finding(x: Seq<FindingView>, f: FindingView)
    ensures
        findings_lines(x.push(f)) == findings_lines(x) + "\n"@ + f.component.name + "@"@
            + f.component.version + "\n"@ + advisories_lines(f.advisories),
        forall|y: Seq<AdvisoryView>, a: AdvisoryView| #[trigger]
            advisories_lines(y.push(a)) == advisories_lines(y) + advisory_lines(a),
{
    assert(x.push(f).drop_last() =~= x);
    assert forall|y: Seq<AdvisoryView>, a: AdvisoryView| #[trigger]
        advisories_lines(y.push(a)) == advisories_lines(y) + advisory_lines(a) by {
        assert(y.push(a).drop_last() =~= y);
    }
}

/// The lines of an advisory name its id, its title and its range.
pub proof fn the_lines_name_the_advisory(a: AdvisoryView) -> (parts: (Seq<char>, Seq<char>))
    ensures
        advisory_lines(a) == parts.0 + " "@ + a.id + "  "@ + a.title + "\n"@ + "    range "@
            + a.vulnerable_range + parts.1,
{
    let word = "  "@ + crate::audit::render::padded(
        uppered(crate::audit::render::word_or_info(a.severity)),
        8,
    );
    reveal_strlit("    range ");
    reveal_strlit("    ");
    reveal_strlit("range ");
    assert("    range "@ =~= "    "@ + "range "@);
    let detail = crate::audit::render::detail_of(a);
    let rest = detail.skip((6 + a.vulnerable_range.len()) as int) + "\n"@;
    assert(advisory_lines(a) =~= word + " "@ + a.id + "  "@ + a.title + "\n"@ + "    range "@
        + a.vulnerable_range + rest);
    (word, rest)
}

} // verus!
