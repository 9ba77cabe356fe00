//! Audit reports in writing: a plain summary, and the JSON of `npm audit`.

use super::advisory::{Advisory, AdvisoryView};

use super::report::{
    all_advisories, highest, AuditReport, ComponentAdvisories, FindingView, Vulnerabilities,
};
use super::{severity_word, Severity};
use crate::json::{
    add_item, array, is_tidy, no_items, no_members, normal, object, object_of, optional_member,
    pretty_text, put, put_some, reads_as, string_opt, text_json, Json, JsonView, Number, NumberView,
};
use crate::sort::{sort_set, sorted_set};
use crate::text::{
    ascii_upper, decimal, decimal_of, join, join_texts, joined, joined3, same, uppered,
};
use vstd::prelude::*;
use vstd::string::*;

verus! {

/// The word for the severity of an advisory; `info` where it has none.
pub open spec fn word_or_info(severity: Option<Severity>) -> Seq<char> {
    match severity {
        Some(s) => severity_word(s),
        None => "info"@,
    }
}

/// `s` with spaces behind it up to a length of `n`.
pub open spec fn padded(s: Seq<char>, n: nat) -> Seq<char>
    decreases n - s.len(),
{
    if s.len() >= n {
        s
    } else {
        padded(s.push(' '), n)
    }
}

/// What is said below an advisory: its range, its weaknesses and its URL.
pub open spec fn detail_of(a: AdvisoryView) -> Seq<char> {
    "range "@ + a.vulnerable_range + (if a.cwe.len() > 0 {
        " · "@ + join(a.cwe, ", "@)
    } else {
        Seq::empty()
    }) + (match a.url {
        Some(url) => " · "@ + url,
        None => Seq::empty(),
    })
}

/// The lines of an advisory.
pub open spec fn advisory_lines(a: AdvisoryView) -> Seq<char> {
    "  "@ + padded(uppered(word_or_info(a.severity)), 8) + " "@ + a.id + "  "@ + a.title + "\n"@
        + "    "@ + detail_of(a) + "\n"@
}

/// The lines of several advisories.
pub open spec fn advisories_lines(all: Seq<AdvisoryView>) -> Seq<char>
    decreases all.len(),
{
    if all.len() == 0 {
        Seq::empty()
    } else {
        advisories_lines(all.drop_last()) + advisory_lines(all.last())
    }
}

/// The lines of the findings: for each an empty line, the package, and its advisories.
pub open spec fn findings_lines(findings: Seq<FindingView>) -> Seq<char>
    decreases findings.len(),
{
    if findings.len() == 0 {
        Seq::empty()
    } else {
        let f = findings.last();
        findings_lines(findings.drop_last()) + "\n"@ + f.component.name + "@"@
            + f.component.version + "\n"@ + advisories_lines(f.advisories)
    }
}

/// The first line of a summary with findings.
pub open spec fn header_line(v: Vulnerabilities, packages: nat) -> Seq<char> {
    "found "@ + decimal_of(v.total as nat) + " vulnerabilit"@ + (if v.total == 1 {
        "y"@
    } else {
        "ies"@
    }) + " ("@ + decimal_of(v.critical as nat) + " critical, "@ + decimal_of(v.high as nat)
        + " high, "@ + decimal_of(v.moderate as nat) + " moderate, "@ + decimal_of(v.low as nat)
        + " low"@ + (if v.info > 0 {
        ", "@ + decimal_of(v.info as nat) + " info"@
    } else {
        Seq::empty()
    }) + ") in "@ + decimal_of(packages) + " package(s)\n"@
}

/// The summary of a report.
pub open spec fn audit_summary(v: Vulnerabilities, findings: Seq<FindingView>) -> Seq<char> {
    if v.total == 0 {
        "found 0 vulnerabilities\n"@
    } else {
        header_line(v, findings.len()) + findings_lines(findings)
    }
}

/// `s` with spaces behind it up to a length of `n`.
fn pad(s: String, n: usize) -> (r: String)
    ensures
        r@ == padded(s@, n as nat),
{
    let ghost start = s@;
    let mut out = s;
    let mut len: usize = out.unicode_len();
    while len < n
        invariant
            len == out@.len(),
            padded(start, n as nat) == padded(out@, n as nat),
        decreases n - len,
    {
        out.push(' ');
        len += 1;
    }
    out
}

/// The word for a severity; `info` where there is none.
fn severity_or_info(severity: Option<Severity>) -> (r: &'static str)
    ensures
        r@ == word_or_info(severity),
{
    match severity {
        Some(s) => s.as_str(),
        None => "info",
    }
}

/// The lines of an advisory.
fn write_advisory(a: &Advisory) -> (r: String)
    ensures
        r@ == advisory_lines(a.deep_view()),
{
    let mut detail = joined("range ", a.vulnerable_range.as_str());
    if a.cwe.len() > 0 {
        detail.append(" · ");
        detail.append(join_texts(&a.cwe, ", ").as_str());
    }
    if let Some(url) = &a.url {
        detail.append(" · ");
        detail.append(url.as_str());
    }
    assert(detail@ =~= detail_of(a.deep_view()));
    let word = pad(ascii_upper(severity_or_info(a.severity)), 8);
    let mut out = joined3("  ", word.as_str(), " ");
    out.append(a.id.as_str());
    out.append("  ");
    out.append(a.title.as_str());
    out.append("\n");
    out.append("    ");
    out.append(detail.as_str());
    out.append("\n");
    out
}

/// The lines of several advisories.
fn write_advisories(list: &Vec<Advisory>) -> (r: String)
    ensures
        r@ == advisories_lines(list.deep_view()),
{
    let ghost all = list.deep_view();
    let mut out = String::new();
    let mut i: usize = 0;
    assert(out@ =~= advisories_lines(all.take(0)));
    while i < list.len()
        invariant
            i <= list.len(),
            all == list.deep_view(),
            out@ == advisories_lines(all.take(i as int)),
        decreases list.len() - i,
    {
        assert(all.take(i + 1).drop_last() =~= all.take(i as int));
        out.append(write_advisory(&list[i]).as_str());
        i += 1;
    }
    assert(all.take(all.len() as int) =~= all);
    out
}

/// The first line of a summary with findings.
fn write_header(v: &Vulnerabilities, packages: usize) -> (r: String)
    ensures
        r@ == header_line(*v, packages as nat),
{
    let mut out = joined3("found ", decimal(v.total).as_str(), " vulnerabilit");
    out.append(
        if v.total == 1 {
            "y"
        } else {
            "ies"
        },
    );
    out.append(" (");
    out.append(decimal(v.critical).as_str());
    out.append(" critical, ");
    out.append(decimal(v.high).as_str());
    out.append(" high, ");
    out.append(decimal(v.moderate).as_str());
    out.append(" moderate, ");
    out.append(decimal(v.low).as_str());
    out.append(" low");
    let ghost base = out@;
    if v.info > 0 {
        let info = joined3(", ", decimal(v.info).as_str(), " info");
        out.append(info.as_str());
    } else {
        assert(base =~= base + Seq::<char>::empty());
    }
    out.append(") in ");
    out.append(decimal(packages as u64).as_str());
    out.append(" package(s)\n");
    out
}

/// A plain summary of a report: how many advisories there are, then each affected package with
/// its advisories.
pub fn render_summary(report: &AuditReport) -> (r: String)
    ensures
        r@ == audit_summary(report.vulnerabilities, report.findings.deep_view()),
{
    if report.vulnerabilities.total == 0 {
        return "found 0 vulnerabilities\n".to_owned();
    }
    let ghost all = report.findings.deep_view();
    let mut out = write_header(&report.vulnerabilities, report.findings.len());
    let ghost start = out@;
    let mut i: usize = 0;
    assert(out@ =~= start + findings_lines(all.take(0)));
    while i < report.findings.len()
        invariant
            i <= report.findings.len(),
            all == report.findings.deep_view(),
            out@ == start + findings_lines(all.take(i as int)),
        decreases report.findings.len() - i,
    {
        assert(all.take(i + 1).drop_last() =~= all.take(i as int));
        let f = &report.findings[i];
        out.append("\n");
        out.append(f.component.name.as_str());
        out.append("@");
        out.append(f.component.version.as_str());
        out.append("\n");
        out.append(write_advisories(&f.advisories).as_str());
        assert(out@ =~= start + findings_lines(all.take(i + 1)));
        i += 1;
    }
    assert(all.take(all.len() as int) =~= all);
    out
}

/// The texts as JSON.
pub open spec fn text_items(texts: Seq<Seq<char>>) -> JsonView {
    JsonView::Array(texts.map_values(|s: Seq<char>| JsonView::Str(s)))
}

/// An advisory as JSON; what it lacks is left out.
pub open spec fn advisory_document() -> spec_fn(AdvisoryView) -> JsonView {
    |a: AdvisoryView|
        JsonView::Object(
            seq![("source"@, JsonView::Str(a.source)), ("id"@, JsonView::Str(a.id))]
                + optional_member(
                "aliases"@,
                if a.aliases.len() > 0 {
                    Some(text_items(a.aliases))
                } else {
                    None
                },
            ) + seq![
                ("title"@, JsonView::Str(a.title)),
                ("vulnerable_range"@, JsonView::Str(a.vulnerable_range)),
            ] + optional_member(
                "matched_version"@,
                if a.matched_version.len() > 0 {
                    Some(JsonView::Str(a.matched_version))
                } else {
                    None
                },
            ) + optional_member(
                "severity"@,
                match a.severity {
                    Some(s) => Some(JsonView::Str(severity_word(s))),
                    None => None,
                },
            ) + optional_member("url"@, text_json(a.url)) + optional_member(
                "cwe"@,
                if a.cwe.len() > 0 {
                    Some(text_items(a.cwe))
                } else {
                    None
                },
            ) + optional_member(
                "cvss_score"@,
                match a.cvss_score {
                    Some(score) => Some(JsonView::Number(NumberView::Float(score.notation))),
                    None => None,
                },
            ) + optional_member("cvss_vector"@, text_json(a.cvss_vector)),
        )
}

/// The findings on the packages of this name.
pub open spec fn finding_on(name: Seq<char>) -> spec_fn(FindingView) -> bool {
    |f: FindingView| f.component.name == name
}

/// The names of the packages of the findings.
pub open spec fn names_of(findings: Seq<FindingView>) -> Seq<Seq<char>> {
    findings.map_values(|f: FindingView| f.component.name)
}

/// The versions of the packages of the findings.
pub open spec fn versions_of(findings: Seq<FindingView>) -> Seq<Seq<char>> {
    findings.map_values(|f: FindingView| f.component.version)
}

/// What a report says of the packages of one name: the highest severity, the affected
/// versions in order and each once, and the advisories.
pub open spec fn name_document(findings: Seq<FindingView>, name: Seq<char>) -> JsonView {
    let group = findings.filter(finding_on(name));
    JsonView::Object(
        seq![
            ("name"@, JsonView::Str(name)),
            ("severity"@, JsonView::Str(word_or_info(highest(all_advisories(group))))),
            ("versions"@, text_items(sorted_set(versions_of(group)))),
            ("via"@, JsonView::Array(all_advisories(group).map_values(advisory_document()))),
        ],
    )
}

/// What a report says of all packages, by their names in order.
pub open spec fn names_document(findings: Seq<FindingView>) -> Seq<(Seq<char>, JsonView)> {
    sorted_set(names_of(findings)).map_values(
        |name: Seq<char>| (name, name_document(findings, name)),
    )
}

/// A count as JSON.
pub open spec fn count_json(n: u64) -> JsonView {
    JsonView::Number(NumberView::Unsigned(n))
}

/// The counts of a report as JSON.
pub open spec fn counts_document(v: Vulnerabilities) -> JsonView {
    JsonView::Object(
        seq![
            ("info"@, count_json(v.info)),
            ("low"@, count_json(v.low)),
            ("moderate"@, count_json(v.moderate)),
            ("high"@, count_json(v.high)),
            ("critical"@, count_json(v.critical)),
            ("total"@, count_json(v.total)),
        ],
    )
}

/// A report as JSON, in the shape of `npm audit --json`.
pub open spec fn report_document(v: Vulnerabilities, findings: Seq<FindingView>) -> JsonView {
    JsonView::Object(
        seq![
            ("vulnerabilities"@, JsonView::Object(names_document(findings))),
            ("metadata"@, JsonView::Object(seq![("vulnerabilities"@, counts_document(v))])),
        ],
    )
}

/// The texts as JSON.
fn texts_json(texts: &Vec<String>) -> (r: Json)
    ensures
        r.deep_view() == text_items(texts.deep_view()),
{
    let ghost all = texts.deep_view();
    let mut items = no_items();
    let mut i: usize = 0;
    while i < texts.len()
        invariant
            i <= texts.len(),
            all == texts.deep_view(),
            items.deep_view() =~= all.take(i as int).map_values(|s: Seq<char>| JsonView::Str(s)),
        decreases texts.len() - i,
    {
        add_item(&mut items, Json::string(texts[i].as_str()));
        i += 1;
    }
    assert(all.take(all.len() as int) =~= all);
    array(items)
}

/// The texts as JSON, where there are any.
fn texts_opt(texts: &Vec<String>) -> (r: Option<Json>)
    ensures
        r.deep_view() == (if texts.deep_view().len() > 0 {
            Some(text_items(texts.deep_view()))
        } else {
            None
        }),
{
    if texts.len() > 0 {
        Some(texts_json(texts))
    } else {
        None
    }
}

/// An advisory as JSON.
fn advisory_json(a: &Advisory) -> (r: Json)
    ensures
        r.deep_view() == advisory_document()(a.deep_view()),
{
    let mut m = no_members();
    put(&mut m, "source", Json::string(a.source));
    put(&mut m, "id", Json::string(a.id.as_str()));
    assert(m.deep_view() =~= seq![
        ("source"@, JsonView::Str(a.source@)),
        ("id"@, JsonView::Str(a.id@)),
    ]);
    put_some(&mut m, "aliases", texts_opt(&a.aliases));
    let ghost head = m.deep_view();
    put(&mut m, "title", Json::string(a.title.as_str()));
    put(&mut m, "vulnerable_range", Json::string(a.vulnerable_range.as_str()));
    assert(m.deep_view() =~= head + seq![
        ("title"@, JsonView::Str(a.title@)),
        ("vulnerable_range"@, JsonView::Str(a.vulnerable_range@)),
    ]);
    let matched: Option<Json> = if a.matched_version.unicode_len() > 0 {
        Some(Json::string(a.matched_version.as_str()))
    } else {
        None
    };
    put_some(&mut m, "matched_version", matched);
    let severity: Option<Json> = match a.severity {
        Some(s) => Some(Json::string(s.as_str())),
        None => None,
    };
    put_some(&mut m, "severity", severity);
    put_some(&mut m, "url", string_opt(&a.url));
    put_some(&mut m, "cwe", texts_opt(&a.cwe));
    let score: Option<Json> = match &a.cvss_score {
        Some(score) => Some(Json::Number(Number::Float(score.notation.clone()))),
        None => None,
    };
    put_some(&mut m, "cvss_score", score);
    put_some(&mut m, "cvss_vector", string_opt(&a.cvss_vector));
    object(m)
}

/// The findings on the packages of this name.
fn findings_on<'a>(findings: &'a Vec<ComponentAdvisories>, name: &str) -> (r: Vec<
    &'a ComponentAdvisories,
>)
    ensures
        r.deep_view() == findings.deep_view().filter(finding_on(name@)),
{
    let ghost all = findings.deep_view();
    let ghost keep = finding_on(name@);
    let mut out: Vec<&'a ComponentAdvisories> = Vec::new();
    let mut i: usize = 0;
    assert(out.deep_view() =~= all.take(0).filter(keep)) by {
        reveal(Seq::filter);
    }
    while i < findings.len()
        invariant
            i <= findings.len(),
            all == findings.deep_view(),
            keep == finding_on(name@),
            out.deep_view() == all.take(i as int).filter(keep),
        decreases findings.len() - i,
    {
        let ghost done = out.deep_view();
        let f = &findings[i];
        proof {
            assert(all.take(i + 1) =~= all.take(i as int).push(all[i as int]));
            all.take(i as int).lemma_filter_push(all[i as int], keep);
        }
        if same(f.component.name.as_str(), name) {
            out.push(f);
            assert(out.deep_view() =~= done.push(f.deep_view()));
        }
        i += 1;
    }
    assert(all.take(all.len() as int) =~= all);
    out
}

/// The advisories of a group of findings, as JSON, and their highest severity.
fn via_of(group: &Vec<&ComponentAdvisories>) -> (r: (Vec<Json>, Option<Severity>))
    ensures
        r.0.deep_view() == all_advisories(group.deep_view()).map_values(advisory_document()),
        r.1 == highest(all_advisories(group.deep_view())),
{
    let ghost all = group.deep_view();
    let mut causes = no_items();
    let mut top: Option<Severity> = None;
    let mut i: usize = 0;
    assert(causes.deep_view() =~= all_advisories(all.take(0)).map_values(advisory_document()));
    while i < group.len()
        invariant
            i <= group.len(),
            all == group.deep_view(),
            causes.deep_view() =~= all_advisories(all.take(i as int)).map_values(advisory_document()),
            top == highest(all_advisories(all.take(i as int))),
        decreases group.len() - i,
    {
        let ghost seen = all_advisories(all.take(i as int));
        let ghost h = all[i as int].advisories;
        let f = group[i];
        let mut j: usize = 0;
        assert(all.take(i + 1).drop_last() =~= all.take(i as int));
        assert(seen + h.take(0) =~= seen);
        while j < f.advisories.len()
            invariant
                h == f.deep_view().advisories,
                j <= h.len(),
                causes.deep_view() =~= (seen + h.take(j as int)).map_values(advisory_document()),
                top == highest(seen + h.take(j as int)),
            decreases h.len() - j,
        {
            proof {
                let next = seen + h.take(j + 1);
                assert(next.drop_last() =~= seen + h.take(j as int));
                assert(next.last() == h[j as int]);
            }
            add_item(&mut causes, advisory_json(&f.advisories[j]));
            top = super::report::higher_of(top, f.advisories[j].severity);
            j += 1;
        }
        assert(h.take(h.len() as int) =~= h);
        i += 1;
    }
    assert(all.take(all.len() as int) =~= all);
    (causes, top)
}

/// What a report says of the packages of one name.
fn name_json(findings: &Vec<ComponentAdvisories>, name: &str) -> (r: Json)
    ensures
        r.deep_view() == name_document(findings.deep_view(), name@),
{
    let group = findings_on(findings, name);
    let ghost g = group.deep_view();
    let mut versions: Vec<String> = Vec::new();
    let mut i: usize = 0;
    while i < group.len()
        invariant
            i <= group.len(),
            g == group.deep_view(),
            versions.deep_view() =~= versions_of(g.take(i as int)),
        decreases group.len() - i,
    {
        let ghost done = versions.deep_view();
        versions.push(group[i].component.version.clone());
        assert(versions.deep_view() =~= done.push(g[i as int].component.version));
        i += 1;
    }
    assert(g.take(g.len() as int) =~= g);
    let (causes, top) = via_of(&group);
    let mut m = no_members();
    put(&mut m, "name", Json::string(name));
    put(&mut m, "severity", Json::string(severity_or_info(top)));
    put(&mut m, "versions", texts_json(&sort_set(versions)));
    put(&mut m, "via", array(causes));
    assert(m.deep_view() =~= name_document(findings.deep_view(), name@)->Object_0);
    object(m)
}

/// The counts of a report as JSON.
fn counts_json(v: &Vulnerabilities) -> (r: Json)
    ensures
        r.deep_view() == counts_document(*v),
{
    let mut m = no_members();
    put(&mut m, "info", Json::Number(Number::Unsigned(v.info)));
    put(&mut m, "low", Json::Number(Number::Unsigned(v.low)));
    put(&mut m, "moderate", Json::Number(Number::Unsigned(v.moderate)));
    put(&mut m, "high", Json::Number(Number::Unsigned(v.high)));
    put(&mut m, "critical", Json::Number(Number::Unsigned(v.critical)));
    put(&mut m, "total", Json::Number(Number::Unsigned(v.total)));
    assert(m.deep_view() =~= counts_document(*v)->Object_0);
    object(m)
}

/// A report as JSON.
pub fn report_json(report: &AuditReport) -> (r: Json)
    ensures
        r.deep_view() == report_document(report.vulnerabilities, report.findings.deep_view()),
{
    let ghost all = report.findings.deep_view();
    let mut names: Vec<String> = Vec::new();
    let mut i: usize = 0;
    while i < report.findings.len()
        invariant
            i <= report.findings.len(),
            all == report.findings.deep_view(),
            names.deep_view() =~= names_of(all.take(i as int)),
        decreases report.findings.len() - i,
    {
        let ghost done = names.deep_view();
        names.push(report.findings[i].component.name.clone());
        assert(names.deep_view() =~= done.push(all[i as int].component.name));
        i += 1;
    }
    assert(all.take(all.len() as int) =~= all);
    let sorted = sort_set(names);
    let ghost ns = sorted.deep_view();
    let ghost f = |name: Seq<char>| (name, name_document(all, name));
    let mut vulns = no_members();
    let mut k: usize = 0;
    while k < sorted.len()
        invariant
            k <= sorted.len(),
            ns == sorted.deep_view(),
            all == report.findings.deep_view(),
            f == (|name: Seq<char>| (name, name_document(all, name))),
            vulns.deep_view() =~= ns.take(k as int).map_values(f),
        decreases sorted.len() - k,
    {
        put(&mut vulns, sorted[k].as_str(), name_json(&report.findings, sorted[k].as_str()));
        k += 1;
    }
    assert(ns.take(ns.len() as int) =~= ns);
    assert(vulns.deep_view() =~= names_document(all));
    let mut doc = no_members();
    put(&mut doc, "vulnerabilities", object(vulns));
    put(
        &mut doc,
        "metadata",
        object_of("vulnerabilities", counts_json(&report.vulnerabilities)),
    );
    assert(doc.deep_view() =~= report_document(report.vulnerabilities, all)->Object_0);
    object(doc)
}

/// A report as JSON in writing, indented, with a line break at the end.
pub fn render_json(report: &AuditReport) -> (r: String)
    ensures
        r@ == pretty_text(
            normal(report_document(report.vulnerabilities, report.findings.deep_view())),
        ) + "\n"@,
        is_tidy(report_document(report.vulnerabilities, report.findings.deep_view()), 127)
            ==> reads_as(
            r@,
            report_document(report.vulnerabilities, report.findings.deep_view()),
        ),
{
    let doc = report_json(report);
    proof {
        if crate::json::is_plain(doc.deep_view()) {
            crate::json::lemma_plain_is_normal(doc.deep_view());
        }
    }
    joined(doc.to_pretty().as_str(), "\n")
}

} // verus!
